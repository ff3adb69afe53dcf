use vstd::prelude::*;

use crate::address::CellRef;
use crate::formula::{tokens_view, SpecToken, Token};

verus! {

#[derive(Debug, Clone, Copy, PartialEq, Eq, Structural)]
pub enum BinOp {
    Add,
    Sub,
    Mul,
    Div,
}

/// A parsed formula expression. A number keeps the text it was written with.
#[derive(Debug, PartialEq)]
pub enum Expr {
    Number(String),
    Cell(CellRef),
    Range(CellRef, CellRef),
    Neg(Box<Expr>),
    BinOp(Box<Expr>, BinOp, Box<Expr>),
    Call(String, Vec<Expr>),
}

/// An expression as the contracts see it.
pub enum SpecExpr {
    Number(Seq<char>),
    Cell(CellRef),
    Range(CellRef, CellRef),
    Neg(Box<SpecExpr>),
    BinOp(Box<SpecExpr>, BinOp, Box<SpecExpr>),
    Call(Seq<char>, Seq<SpecExpr>),
}

pub open spec fn expr_view(e: Expr) -> SpecExpr
    decreases e, 0int,
{
    match e {
        Expr::Number(s) => SpecExpr::Number(s@),
        Expr::Cell(c) => SpecExpr::Cell(c),
        Expr::Range(a, b) => SpecExpr::Range(a, b),
        Expr::Neg(x) => SpecExpr::Neg(Box::new(expr_view(*x))),
        Expr::BinOp(l, op, r) => SpecExpr::BinOp(
            Box::new(expr_view(*l)),
            op,
            Box::new(expr_view(*r)),
        ),
        Expr::Call(n, args) => SpecExpr::Call(n@, exprs_view(args@)),
    }
}

pub open spec fn exprs_view(s: Seq<Expr>) -> Seq<SpecExpr>
    decreases s, 0int,
{
    if s.len() == 0 {
        seq![]
    } else {
        exprs_view(s.subrange(0, s.len() - 1)).push(expr_view(s[s.len() - 1]))
    }
}

impl View for Expr {
    type V = SpecExpr;

    open spec fn view(&self) -> SpecExpr {
        expr_view(*self)
    }
}

proof fn lemma_exprs_view_push(s: Seq<Expr>, e: Expr)
    ensures
        exprs_view(s.push(e)) == exprs_view(s).push(expr_view(e)),
{
    assert(s.push(e).subrange(0, s.len() as int) == s);
}

impl Clone for Expr {
    fn clone(&self) -> (res: Expr)
        ensures
            res@ == self@,
        decreases self,
    {
        match self {
            Expr::Number(s) => Expr::Number(s.clone()),
            Expr::Cell(c) => Expr::Cell(*c),
            Expr::Range(a, b) => Expr::Range(*a, *b),
            Expr::Neg(x) => Expr::Neg(Box::new((**x).clone())),
            Expr::BinOp(l, op, r) => Expr::BinOp(Box::new((**l).clone()), *op, Box::new((**r).clone())),
            Expr::Call(n, args) => {
                let mut copy: Vec<Expr> = Vec::new();
                let mut i: usize = 0;
                #[verifier::loop_isolation(false)]
                while i < args.len()
                    invariant
                        i <= args.len(),
                        exprs_view(copy@) == exprs_view(args@.take(i as int)),
                    decreases args.len() - i,
                {
                    proof {
                        assert(decreases_to!(*self => *args));
                        assert(decreases_to!(*args => args@));
                        assert(decreases_to!(args@ => args@[i as int]));
                    }
                    let e = args[i].clone();
                    proof {
                        lemma_exprs_view_push(copy@, e);
                        lemma_exprs_view_push(args@.take(i as int), args@[i as int]);
                        assert(args@.take(i + 1) == args@.take(i as int).push(args@[i as int]));
                    }
                    copy.push(e);
                    i += 1;
                }
                assert(args@.take(args.len() as int) == args@);
                Expr::Call(n.clone(), copy)
            },
        }
    }
}

/// Why a token sequence is not a formula.
#[derive(Debug, Clone, PartialEq)]
pub enum ParseError {
    /// A complete expression is followed by more tokens.
    TrailingToken(Token),
    /// A parenthesis was required: `expected` is `(` or `)`, `found` what
    /// stood there instead (`None` at the end of input).
    Expected { expected: Token, found: Option<Token> },
    /// `:` in a range is not followed by a cell reference.
    ExpectedCellAfterColon(Option<Token>),
    /// A token that cannot start an operand.
    UnexpectedToken(Token),
    /// The input ended where an operand was due.
    UnexpectedEnd,
}

/// A parse error as the contracts see it.
pub enum SpecParseError {
    TrailingToken(SpecToken),
    Expected(SpecToken, Option<SpecToken>),
    ExpectedCellAfterColon(Option<SpecToken>),
    UnexpectedToken(SpecToken),
    UnexpectedEnd,
}

pub open spec fn opt_token_view(t: Option<Token>) -> Option<SpecToken> {
    match t {
        Some(t) => Some(t@),
        None => None,
    }
}

impl View for ParseError {
    type V = SpecParseError;

    open spec fn view(&self) -> SpecParseError {
        match self {
            ParseError::TrailingToken(t) => SpecParseError::TrailingToken(t@),
            ParseError::Expected { expected, found } => SpecParseError::Expected(
                expected@,
                opt_token_view(*found),
            ),
            ParseError::ExpectedCellAfterColon(t) => SpecParseError::ExpectedCellAfterColon(
                opt_token_view(*t),
            ),
            ParseError::UnexpectedToken(t) => SpecParseError::UnexpectedToken(t@),
            ParseError::UnexpectedEnd => SpecParseError::UnexpectedEnd,
        }
    }
}

/// The token at `p`, if there is one.
pub open spec fn peek(t: Seq<SpecToken>, p: int) -> Option<SpecToken> {
    if 0 <= p < t.len() {
        Some(t[p])
    } else {
        None
    }
}

/// The token at `p` is `k`.
pub open spec fn is_tok(t: Seq<SpecToken>, p: int, k: SpecToken) -> bool {
    peek(t, p) == Some(k)
}

/// The additive operator that a token stands for.
pub open spec fn add_op(t: Option<SpecToken>) -> Option<BinOp> {
    match t {
        Some(SpecToken::Plus) => Some(BinOp::Add),
        Some(SpecToken::Minus) => Some(BinOp::Sub),
        _ => None,
    }
}

/// The multiplicative operator that a token stands for.
pub open spec fn mul_op(t: Option<SpecToken>) -> Option<BinOp> {
    match t {
        Some(SpecToken::Star) => Some(BinOp::Mul),
        Some(SpecToken::Slash) => Some(BinOp::Div),
        _ => None,
    }
}

/// A parse of a grammar rule from a position: the expression and the
/// position after it, or an error.
pub type Parsed = Result<(SpecExpr, int), SpecParseError>;

// The grammar, one function per rule. Parsing only moves forward: the
// position checks such as `p <= q <= t.len()` on results always hold (the
// parsing functions below establish it for every input) and only make the
// recursion visibly well-founded.
//
//   expr    := term (('+' | '-') term)*
//   term    := unary (('*' | '/') unary)*
//   unary   := ('-' | '+') unary | primary
//   primary := Number | Cell (':' Cell)? | Ident '(' (expr (',' expr)*)? ')'
//            | '(' expr ')'

/// `expr` at `p`.
pub open spec fn p_expr(t: Seq<SpecToken>, p: int) -> Parsed
    decreases t.len() - p, 8int,
{
    if p < 0 || p > t.len() {
        Err(SpecParseError::UnexpectedEnd)
    } else {
        match p_term(t, p) {
            Ok((l, q)) => if p <= q <= t.len() {
                p_expr_rest(t, q, l)
            } else {
                Err(SpecParseError::UnexpectedEnd)
            },
            Err(e) => Err(e),
        }
    }
}

/// The `(('+' | '-') term)*` tail of `expr` at `p`, after `left`.
pub open spec fn p_expr_rest(t: Seq<SpecToken>, p: int, left: SpecExpr) -> Parsed
    decreases t.len() - p, 7int,
{
    match add_op(peek(t, p)) {
        Some(op) => match p_term(t, p + 1) {
            Ok((r, q)) => if p < q <= t.len() {
                p_expr_rest(t, q, SpecExpr::BinOp(Box::new(left), op, Box::new(r)))
            } else {
                Err(SpecParseError::UnexpectedEnd)
            },
            Err(e) => Err(e),
        },
        None => Ok((left, p)),
    }
}

/// `term` at `p`.
pub open spec fn p_term(t: Seq<SpecToken>, p: int) -> Parsed
    decreases t.len() - p, 6int,
{
    if p < 0 || p > t.len() {
        Err(SpecParseError::UnexpectedEnd)
    } else {
        match p_unary(t, p) {
            Ok((l, q)) => if p <= q <= t.len() {
                p_term_rest(t, q, l)
            } else {
                Err(SpecParseError::UnexpectedEnd)
            },
            Err(e) => Err(e),
        }
    }
}

/// The `(('*' | '/') unary)*` tail of `term` at `p`, after `left`.
pub open spec fn p_term_rest(t: Seq<SpecToken>, p: int, left: SpecExpr) -> Parsed
    decreases t.len() - p, 5int,
{
    match mul_op(peek(t, p)) {
        Some(op) => match p_unary(t, p + 1) {
            Ok((r, q)) => if p < q <= t.len() {
                p_term_rest(t, q, SpecExpr::BinOp(Box::new(left), op, Box::new(r)))
            } else {
                Err(SpecParseError::UnexpectedEnd)
            },
            Err(e) => Err(e),
        },
        None => Ok((left, p)),
    }
}

/// `unary` at `p`.
pub open spec fn p_unary(t: Seq<SpecToken>, p: int) -> Parsed
    decreases t.len() - p, 4int,
{
    if is_tok(t, p, SpecToken::Minus) {
        match p_unary(t, p + 1) {
            Ok((e, q)) => Ok((SpecExpr::Neg(Box::new(e)), q)),
            Err(e) => Err(e),
        }
    } else if is_tok(t, p, SpecToken::Plus) {
        p_unary(t, p + 1)
    } else {
        p_primary(t, p)
    }
}

/// The `(',' expr)*` tail of a call's arguments at `p`, after `acc`.
pub open spec fn p_args(t: Seq<SpecToken>, p: int, acc: Seq<SpecExpr>) -> Result<
    (Seq<SpecExpr>, int),
    SpecParseError,
>
    decreases t.len() - p, 2int,
{
    if is_tok(t, p, SpecToken::Comma) {
        match p_expr(t, p + 1) {
            Ok((e, q)) => if p < q <= t.len() {
                p_args(t, q, acc.push(e))
            } else {
                Err(SpecParseError::UnexpectedEnd)
            },
            Err(e) => Err(e),
        }
    } else {
        Ok((acc, p))
    }
}

/// A call of `name` once its arguments are read: the closing `)` must follow.
pub open spec fn p_close_call(
    t: Seq<SpecToken>,
    name: Seq<char>,
    args: Result<(Seq<SpecExpr>, int), SpecParseError>,
) -> Parsed {
    match args {
        Ok((args, q)) => if is_tok(t, q, SpecToken::RParen) {
            Ok((SpecExpr::Call(name, args), q + 1))
        } else {
            Err(SpecParseError::Expected(SpecToken::RParen, peek(t, q)))
        },
        Err(e) => Err(e),
    }
}

/// `primary` at `p`.
pub open spec fn p_primary(t: Seq<SpecToken>, p: int) -> Parsed
    decreases t.len() - p, 3int,
{
    match peek(t, p) {
        None => Err(SpecParseError::UnexpectedEnd),
        Some(SpecToken::Number(n)) => Ok((SpecExpr::Number(n), p + 1)),
        Some(SpecToken::Cell(c)) => if is_tok(t, p + 1, SpecToken::Colon) {
            match peek(t, p + 2) {
                Some(SpecToken::Cell(e)) => Ok((SpecExpr::Range(c, e), p + 3)),
                other => Err(SpecParseError::ExpectedCellAfterColon(other)),
            }
        } else {
            Ok((SpecExpr::Cell(c), p + 1))
        },
        Some(SpecToken::Ident(name)) => if !is_tok(t, p + 1, SpecToken::LParen) {
            Err(SpecParseError::Expected(SpecToken::LParen, peek(t, p + 1)))
        } else if is_tok(t, p + 2, SpecToken::RParen) {
            Ok((SpecExpr::Call(name, seq![]), p + 3))
        } else {
            match p_expr(t, p + 2) {
                Ok((e, q)) => if p + 2 <= q <= t.len() {
                    p_close_call(t, name, p_args(t, q, seq![e]))
                } else {
                    Err(SpecParseError::UnexpectedEnd)
                },
                Err(e) => Err(e),
            }
        },
        Some(SpecToken::LParen) => match p_expr(t, p + 1) {
            Ok((e, q)) => if is_tok(t, q, SpecToken::RParen) {
                Ok((e, q + 1))
            } else {
                Err(SpecParseError::Expected(SpecToken::RParen, peek(t, q)))
            },
            Err(e) => Err(e),
        },
        Some(other) => Err(SpecParseError::UnexpectedToken(other)),
    }
}

/// The expression that a whole token sequence spells: one `expr` with
/// nothing after it.
pub open spec fn parse_tokens(t: Seq<SpecToken>) -> Result<SpecExpr, SpecParseError> {
    match p_expr(t, 0) {
        Ok((e, q)) => if q < t.len() {
            Err(SpecParseError::TrailingToken(t[q]))
        } else {
            Ok(e)
        },
        Err(e) => Err(e),
    }
}


/// A copy of a token.
fn copy_token(t: &Token) -> (r: Token)
    ensures
        r@ == t@,
{
    match t {
        Token::Number(s) => Token::Number(s.clone()),
        Token::Cell(c) => Token::Cell(*c),
        Token::Ident(s) => Token::Ident(s.clone()),
        Token::Plus => Token::Plus,
        Token::Minus => Token::Minus,
        Token::Star => Token::Star,
        Token::Slash => Token::Slash,
        Token::Colon => Token::Colon,
        Token::Comma => Token::Comma,
        Token::LParen => Token::LParen,
        Token::RParen => Token::RParen,
    }
}

/// A copy of the token at `p`, if there is one.
fn token_at(tokens: &[Token], p: usize) -> (r: Option<Token>)
    ensures
        opt_token_view(r) == peek(tokens_view(tokens@), p as int),
{
    if p < tokens.len() {
        Some(copy_token(&tokens[p]))
    } else {
        None
    }
}

fn parse_expr(tokens: &[Token], p: usize) -> (res: Result<(Expr, usize), ParseError>)
    requires
        p <= tokens.len(),
    ensures
        res matches Ok((e, q)) ==> p_expr(tokens_view(tokens@), p as int) == Parsed::Ok((e@, q as int))
            && p < q <= tokens.len(),
        res matches Err(err) ==> p_expr(tokens_view(tokens@), p as int) == Parsed::Err(err@),
    decreases tokens.len() - p, 8int,
{
    let ghost t = tokens_view(tokens@);
    let (first, q0) = parse_term(tokens, p)?;
    let mut left = first;
    let mut q = q0;
    loop
        invariant
            t == tokens_view(tokens@),
            p < q <= tokens.len(),
            p_expr(t, p as int) == p_expr_rest(t, q as int, left@),
        decreases tokens.len() - q,
    {
        let op = if q < tokens.len() {
            match &tokens[q] {
                Token::Plus => Some(BinOp::Add),
                Token::Minus => Some(BinOp::Sub),
                _ => None,
            }
        } else {
            None
        };
        assert(op == add_op(peek(t, q as int)));
        match op {
            None => {
                return Ok((left, q));
            },
            Some(op) => {
                let (right, r) = parse_term(tokens, q + 1)?;
                left = Expr::BinOp(Box::new(left), op, Box::new(right));
                q = r;
            },
        }
    }
}

fn parse_term(tokens: &[Token], p: usize) -> (res: Result<(Expr, usize), ParseError>)
    requires
        p <= tokens.len(),
    ensures
        res matches Ok((e, q)) ==> p_term(tokens_view(tokens@), p as int) == Parsed::Ok((e@, q as int))
            && p < q <= tokens.len(),
        res matches Err(err) ==> p_term(tokens_view(tokens@), p as int) == Parsed::Err(err@),
    decreases tokens.len() - p, 6int,
{
    let ghost t = tokens_view(tokens@);
    let (first, q0) = parse_unary(tokens, p)?;
    let mut left = first;
    let mut q = q0;
    loop
        invariant
            t == tokens_view(tokens@),
            p < q <= tokens.len(),
            p_term(t, p as int) == p_term_rest(t, q as int, left@),
        decreases tokens.len() - q,
    {
        let op = if q < tokens.len() {
            match &tokens[q] {
                Token::Star => Some(BinOp::Mul),
                Token::Slash => Some(BinOp::Div),
                _ => None,
            }
        } else {
            None
        };
        assert(op == mul_op(peek(t, q as int)));
        match op {
            None => {
                return Ok((left, q));
            },
            Some(op) => {
                let (right, r) = parse_unary(tokens, q + 1)?;
                left = Expr::BinOp(Box::new(left), op, Box::new(right));
                q = r;
            },
        }
    }
}

fn parse_unary(tokens: &[Token], p: usize) -> (res: Result<(Expr, usize), ParseError>)
    requires
        p <= tokens.len(),
    ensures
        res matches Ok((e, q)) ==> p_unary(tokens_view(tokens@), p as int) == Parsed::Ok((e@, q as int))
            && p < q <= tokens.len(),
        res matches Err(err) ==> p_unary(tokens_view(tokens@), p as int) == Parsed::Err(err@),
    decreases tokens.len() - p, 4int,
{
    let ghost t = tokens_view(tokens@);
    if p < tokens.len() {
        match &tokens[p] {
            Token::Minus => {
                assert(is_tok(t, p as int, SpecToken::Minus));
                let (inner, q) = parse_unary(tokens, p + 1)?;
                return Ok((Expr::Neg(Box::new(inner)), q));
            },
            Token::Plus => {
                assert(is_tok(t, p as int, SpecToken::Plus));
                return parse_unary(tokens, p + 1);
            },
            _ => {},
        }
    }
    parse_primary(tokens, p)
}

fn parse_primary(tokens: &[Token], p: usize) -> (res: Result<(Expr, usize), ParseError>)
    requires
        p <= tokens.len(),
    ensures
        res matches Ok((e, q)) ==> p_primary(tokens_view(tokens@), p as int) == Parsed::Ok(
            (e@, q as int),
        ) && p < q <= tokens.len(),
        res matches Err(err) ==> p_primary(tokens_view(tokens@), p as int) == Parsed::Err(err@),
    decreases tokens.len() - p, 3int,
{
    let ghost t = tokens_view(tokens@);
    if p >= tokens.len() {
        return Err(ParseError::UnexpectedEnd);
    }
    assert(peek(t, p as int) == Some(tokens@[p as int]@));
    match &tokens[p] {
        Token::Number(n) => Ok((Expr::Number(n.clone()), p + 1)),
        Token::Cell(c) => {
            let colon = p + 1 < tokens.len() && match &tokens[p + 1] {
                Token::Colon => true,
                _ => false,
            };
            assert(colon == is_tok(t, p + 1, SpecToken::Colon));
            if colon {
                let next = token_at(tokens, p + 2);
                match next {
                    Some(Token::Cell(e)) => Ok((Expr::Range(*c, e), p + 3)),
                    other => Err(ParseError::ExpectedCellAfterColon(other)),
                }
            } else {
                Ok((Expr::Cell(*c), p + 1))
            }
        },
        Token::Ident(name) => {
            let lparen = p + 1 < tokens.len() && match &tokens[p + 1] {
                Token::LParen => true,
                _ => false,
            };
            assert(lparen == is_tok(t, p + 1, SpecToken::LParen));
            if !lparen {
                return Err(ParseError::Expected { expected: Token::LParen, found: token_at(tokens, p + 1) });
            }
            let empty = p + 2 < tokens.len() && match &tokens[p + 2] {
                Token::RParen => true,
                _ => false,
            };
            assert(empty == is_tok(t, p + 2, SpecToken::RParen));
            if empty {
                let args: Vec<Expr> = Vec::new();
                assert(exprs_view(args@) == Seq::<SpecExpr>::empty());
                return Ok((Expr::Call(name.clone(), args), p + 3));
            }
            let (first, q0) = parse_expr(tokens, p + 2)?;
            let mut args: Vec<Expr> = Vec::new();
            let ghost e0 = first@;
            args.push(first);
            proof {
                lemma_exprs_view_push(Seq::<Expr>::empty(), args@[0]);
                assert(Seq::<Expr>::empty().push(args@[0]) == args@);
                assert(exprs_view(Seq::<Expr>::empty()) == Seq::<SpecExpr>::empty());
                assert(Seq::<SpecExpr>::empty().push(e0) == seq![e0]);
            }
            assert(p_primary(t, p as int) == p_close_call(t, name@, p_args(t, q0 as int, seq![e0])));
            let mut q = q0;
            loop
                invariant
                    t == tokens_view(tokens@),
                    p + 2 < q <= tokens.len(),
                    p_primary(t, p as int) == p_close_call(t, name@, p_args(t, q0 as int, seq![e0])),
                    p_args(t, q0 as int, seq![e0]) == p_args(t, q as int, exprs_view(args@)),
                ensures
                    p + 2 < q <= tokens.len(),
                    p_primary(t, p as int) == p_close_call(t, name@, p_args(t, q0 as int, seq![e0])),
                    p_args(t, q0 as int, seq![e0]) == Ok::<(Seq<SpecExpr>, int), SpecParseError>((exprs_view(args@), q as int)),
                decreases tokens.len() - q,
            {
                let comma = q < tokens.len() && match &tokens[q] {
                    Token::Comma => true,
                    _ => false,
                };
                assert(comma == is_tok(t, q as int, SpecToken::Comma));
                if !comma {
                    break;
                }
                let (e, r) = parse_expr(tokens, q + 1)?;
                proof {
                    lemma_exprs_view_push(args@, e);
                }
                args.push(e);
                q = r;
            }
            let rparen = q < tokens.len() && match &tokens[q] {
                Token::RParen => true,
                _ => false,
            };
            assert(rparen == is_tok(t, q as int, SpecToken::RParen));
            if !rparen {
                return Err(ParseError::Expected { expected: Token::RParen, found: token_at(tokens, q) });
            }
            Ok((Expr::Call(name.clone(), args), q + 1))
        },
        Token::LParen => {
            let (e, q) = parse_expr(tokens, p + 1)?;
            let rparen = q < tokens.len() && match &tokens[q] {
                Token::RParen => true,
                _ => false,
            };
            assert(rparen == is_tok(t, q as int, SpecToken::RParen));
            if !rparen {
                return Err(ParseError::Expected { expected: Token::RParen, found: token_at(tokens, q) });
            }
            Ok((e, q + 1))
        },
        other => Err(ParseError::UnexpectedToken(copy_token(other))),
    }
}

/// Parses a whole token sequence (as `tokenize` produces it) into an
/// expression, with the usual precedence: unary signs bind tightest, then
/// `*` and `/`, then `+` and `-`, all left-associative. Tokens left over
/// after a complete expression are an error.
pub fn parse(tokens: &[Token]) -> (res: Result<Expr, ParseError>)
    ensures
        res matches Ok(e) ==> parse_tokens(tokens_view(tokens@)) == Ok::<SpecExpr, SpecParseError>(e@),
        res matches Err(err) ==> parse_tokens(tokens_view(tokens@)) == Err::<SpecExpr, SpecParseError>(err@),
{
    let (e, q) = parse_expr(tokens, 0)?;
    if q < tokens.len() {
        return Err(ParseError::TrailingToken(copy_token(&tokens[q])));
    }
    Ok(e)
}


/// How a parse of `t` from some position relates to the parse of `t` with
/// one more token: a parse that ends before the end of `t` is unchanged; one
/// that ends at the end of `t` is unchanged or becomes an error.
spec fn extends(r: Parsed, r2: Parsed, n: int) -> bool {
    r matches Ok((e, q)) ==> q <= n && (q < n ==> r2 == r) && (q == n ==> r2 is Err || r2 == r)
}

proof fn lemma_peek_push(t: Seq<SpecToken>, x: SpecToken, p: int)
    ensures
        0 <= p < t.len() ==> peek(t.push(x), p) == peek(t, p),
        p == t.len() ==> peek(t.push(x), p) == Some(x),
        p == t.len() + 1 ==> peek(t.push(x), p) is None,
        p == t.len() ==> peek(t, p) is None,
{
}

proof fn lemma_parse_at_end(u: Seq<SpecToken>)
    ensures
        p_primary(u, u.len() as int) is Err,
        p_unary(u, u.len() as int) is Err,
        p_term(u, u.len() as int) is Err,
        p_expr(u, u.len() as int) is Err,
{
    let n = u.len() as int;
    assert(peek(u, n) is None);
    assert(p_primary(u, n) is Err);
    assert(p_unary(u, n) is Err);
    assert(p_term(u, n) is Err);
}

proof fn lemma_extends_expr(t: Seq<SpecToken>, x: SpecToken, p: int)
    requires
        0 <= p <= t.len(),
    ensures
        extends(p_expr(t, p), p_expr(t.push(x), p), t.len() as int),
    decreases t.len() + 1 - p, 8int,
{
    let n = t.len() as int;
    let u = t.push(x);
    lemma_extends_term(t, x, p);
    if let Ok((l, q1)) = p_term(t, p) {
        if p <= q1 <= n {
            lemma_extends_expr_rest(t, x, q1, l);
            if q1 == n {
                lemma_parse_at_end(u);
            }
        }
    }
}

proof fn lemma_extends_expr_rest(t: Seq<SpecToken>, x: SpecToken, p: int, left: SpecExpr)
    requires
        0 <= p <= t.len(),
    ensures
        extends(p_expr_rest(t, p, left), p_expr_rest(t.push(x), p, left), t.len() as int),
    decreases t.len() + 1 - p, 7int,
{
    let n = t.len() as int;
    let u = t.push(x);
    lemma_peek_push(t, x, p);
    lemma_peek_push(t, x, p + 1);
    if p == n {
        lemma_parse_at_end(u);
    } else if let Some(op) = add_op(peek(t, p)) {
        lemma_extends_term(t, x, p + 1);
        if let Ok((r, q1)) = p_term(t, p + 1) {
            if p < q1 <= n {
                lemma_extends_expr_rest(t, x, q1, SpecExpr::BinOp(Box::new(left), op, Box::new(r)));
            }
        }
    }
}

proof fn lemma_extends_term(t: Seq<SpecToken>, x: SpecToken, p: int)
    requires
        0 <= p <= t.len(),
    ensures
        extends(p_term(t, p), p_term(t.push(x), p), t.len() as int),
    decreases t.len() + 1 - p, 6int,
{
    let n = t.len() as int;
    let u = t.push(x);
    lemma_extends_unary(t, x, p);
    if let Ok((l, q1)) = p_unary(t, p) {
        if p <= q1 <= n {
            lemma_extends_term_rest(t, x, q1, l);
        }
    }
}

proof fn lemma_extends_term_rest(t: Seq<SpecToken>, x: SpecToken, p: int, left: SpecExpr)
    requires
        0 <= p <= t.len(),
    ensures
        extends(p_term_rest(t, p, left), p_term_rest(t.push(x), p, left), t.len() as int),
    decreases t.len() + 1 - p, 5int,
{
    let n = t.len() as int;
    let u = t.push(x);
    lemma_peek_push(t, x, p);
    lemma_peek_push(t, x, p + 1);
    if p == n {
        lemma_parse_at_end(u);
    } else if let Some(op) = mul_op(peek(t, p)) {
        lemma_extends_unary(t, x, p + 1);
        if let Ok((r, q1)) = p_unary(t, p + 1) {
            if p < q1 <= n {
                lemma_extends_term_rest(t, x, q1, SpecExpr::BinOp(Box::new(left), op, Box::new(r)));
            }
        }
    }
}

proof fn lemma_extends_unary(t: Seq<SpecToken>, x: SpecToken, p: int)
    requires
        0 <= p <= t.len(),
    ensures
        extends(p_unary(t, p), p_unary(t.push(x), p), t.len() as int),
    decreases t.len() + 1 - p, 4int,
{
    let n = t.len() as int;
    let u = t.push(x);
    lemma_peek_push(t, x, p);
    if p == n {
        lemma_parse_at_end(t);
    } else if is_tok(t, p, SpecToken::Minus) || is_tok(t, p, SpecToken::Plus) {
        lemma_extends_unary(t, x, p + 1);
    } else {
        lemma_extends_primary(t, x, p);
    }
}

proof fn lemma_extends_args(t: Seq<SpecToken>, x: SpecToken, p: int, acc: Seq<SpecExpr>)
    requires
        0 <= p <= t.len(),
    ensures
        p_args(t, p, acc) matches Ok((a, q)) ==> q <= t.len() && (q < t.len() ==> p_args(
            t.push(x),
            p,
            acc,
        ) == p_args(t, p, acc)),
    decreases t.len() + 1 - p, 2int,
{
    let n = t.len() as int;
    lemma_peek_push(t, x, p);
    if is_tok(t, p, SpecToken::Comma) {
        lemma_extends_expr(t, x, p + 1);
        if let Ok((e, q1)) = p_expr(t, p + 1) {
            if p < q1 <= n {
                lemma_extends_args(t, x, q1, acc.push(e));
            }
        }
    }
}

proof fn lemma_extends_primary(t: Seq<SpecToken>, x: SpecToken, p: int)
    requires
        0 <= p <= t.len(),
    ensures
        extends(p_primary(t, p), p_primary(t.push(x), p), t.len() as int),
    decreases t.len() + 1 - p, 3int,
{
    let n = t.len() as int;
    let u = t.push(x);
    lemma_peek_push(t, x, p);
    lemma_peek_push(t, x, p + 1);
    lemma_peek_push(t, x, p + 2);
    if p < n {
        match t[p] {
            SpecToken::Ident(name) => {
                if is_tok(t, p + 1, SpecToken::LParen) && !is_tok(t, p + 2, SpecToken::RParen) {
                    if p + 2 == n {
                        lemma_parse_at_end(t);
                    } else {
                        lemma_extends_expr(t, x, p + 2);
                        if let Ok((e, q1)) = p_expr(t, p + 2) {
                            if p + 2 <= q1 <= n {
                                lemma_extends_args(t, x, q1, seq![e]);
                                if let Ok((a, q2)) = p_args(t, q1, seq![e]) {
                                    lemma_peek_push(t, x, q2);
                                    if q1 == n {
                                        assert(p_args(t, q1, seq![e]) == Ok::<
                                            (Seq<SpecExpr>, int),
                                            SpecParseError,
                                        >((seq![e], n)));
                                    }
                                }
                            }
                        }
                    }
                }
            },
            SpecToken::LParen => {
                lemma_extends_expr(t, x, p + 1);
                if let Ok((e, q1)) = p_expr(t, p + 1) {
                    lemma_peek_push(t, x, q1);
                }
            },
            _ => {},
        }
    }
}

/// A complete parse followed by one more token is an error: extra tokens
/// are never silently dropped.
pub proof fn lemma_parse_rejects_extra_token(t: Seq<SpecToken>, x: SpecToken)
    requires
        parse_tokens(t) is Ok,
    ensures
        parse_tokens(t.push(x)) is Err,
{
    lemma_extends_expr(t, x, 0);
}


/// The token that writes a binary operator.
pub open spec fn op_token(op: BinOp) -> SpecToken {
    match op {
        BinOp::Add => SpecToken::Plus,
        BinOp::Sub => SpecToken::Minus,
        BinOp::Mul => SpecToken::Star,
        BinOp::Div => SpecToken::Slash,
    }
}

/// `op` is `+` or `-`, the operators that bind loosest.
pub open spec fn is_additive(op: BinOp) -> bool {
    op == BinOp::Add || op == BinOp::Sub
}

/// The tokens of a binary operation, with parentheses only where precedence
/// needs them: the left operand of `+` or `-` may be any expression and its
/// right operand at most a product; the left operand of `*` or `/` may be
/// any product and its right operand at most a signed operand.
pub open spec fn print_bin(e: SpecExpr) -> Seq<SpecToken>
    decreases e, 0int,
{
    match e {
        SpecExpr::BinOp(l, op, r) => if is_additive(op) {
            print_expr(*l) + seq![op_token(op)] + print_term(*r)
        } else {
            print_term(*l) + seq![op_token(op)] + print_unary(*r)
        },
        _ => seq![],
    }
}

/// The tokens of an expression written as an operand that nothing can split:
/// a number, a cell, a range or a call as they are, anything else in
/// parentheses.
pub open spec fn print_primary(e: SpecExpr) -> Seq<SpecToken>
    decreases e, 1int,
{
    match e {
        SpecExpr::Number(n) => seq![SpecToken::Number(n)],
        SpecExpr::Cell(c) => seq![SpecToken::Cell(c)],
        SpecExpr::Range(a, b) => seq![SpecToken::Cell(a), SpecToken::Colon, SpecToken::Cell(b)],
        SpecExpr::Neg(x) => seq![SpecToken::LParen, SpecToken::Minus] + print_unary(*x) + seq![
            SpecToken::RParen,
        ],
        SpecExpr::BinOp(_, _, _) => seq![SpecToken::LParen] + print_bin(e) + seq![SpecToken::RParen],
        SpecExpr::Call(name, args) => seq![SpecToken::Ident(name), SpecToken::LParen] + print_args(
            args,
        ) + seq![SpecToken::RParen],
    }
}

/// The tokens of an expression written as a signed operand.
pub open spec fn print_unary(e: SpecExpr) -> Seq<SpecToken>
    decreases e, 2int,
{
    match e {
        SpecExpr::Neg(x) => seq![SpecToken::Minus] + print_unary(*x),
        _ => print_primary(e),
    }
}

/// The tokens of an expression written as a product.
pub open spec fn print_term(e: SpecExpr) -> Seq<SpecToken>
    decreases e, 3int,
{
    match e {
        SpecExpr::BinOp(_, op, _) => if is_additive(op) {
            print_unary(e)
        } else {
            print_bin(e)
        },
        _ => print_unary(e),
    }
}

/// The tokens of an expression, with as few parentheses as its structure
/// allows.
pub open spec fn print_expr(e: SpecExpr) -> Seq<SpecToken>
    decreases e, 4int,
{
    match e {
        SpecExpr::BinOp(_, op, _) => if is_additive(op) {
            print_bin(e)
        } else {
            print_term(e)
        },
        _ => print_term(e),
    }
}

/// The tokens of a call's arguments, separated by commas.
pub open spec fn print_args(args: Seq<SpecExpr>) -> Seq<SpecToken>
    decreases args, 0int,
{
    if args.len() == 0 {
        seq![]
    } else {
        print_expr(args[0]) + print_more(args.drop_first())
    }
}

/// The tokens of further arguments, each after a comma.
pub open spec fn print_more(args: Seq<SpecExpr>) -> Seq<SpecToken>
    decreases args, 0int,
{
    if args.len() == 0 {
        seq![]
    } else {
        seq![SpecToken::Comma] + print_expr(args[0]) + print_more(args.drop_first())
    }
}

/// The tokens `x` stand in `t` from position `p` on.
spec fn at(t: Seq<SpecToken>, p: int, x: Seq<SpecToken>) -> bool {
    0 <= p && p + x.len() <= t.len() && t.subrange(p, p + x.len()) == x
}

proof fn lemma_at_index(t: Seq<SpecToken>, p: int, x: Seq<SpecToken>, k: int)
    requires
        at(t, p, x),
        0 <= k < x.len(),
    ensures
        peek(t, p + k) == Some(x[k]),
{
    assert(t.subrange(p, p + x.len())[k] == t[p + k]);
}

proof fn lemma_at_split(t: Seq<SpecToken>, p: int, a: Seq<SpecToken>, b: Seq<SpecToken>)
    requires
        at(t, p, a + b),
    ensures
        at(t, p, a),
        at(t, p + a.len(), b),
{
    let s = t.subrange(p, p + a.len() + b.len());
    assert forall|k: int| 0 <= k < a.len() implies t[p + k] == a[k] by {
        assert(s[k] == (a + b)[k]);
    }
    assert forall|k: int| 0 <= k < b.len() implies t[p + a.len() + k] == b[k] by {
        assert(s[a.len() + k] == (a + b)[a.len() + k]);
    }
    assert(t.subrange(p, p + a.len()) =~= a);
    assert(t.subrange(p + a.len(), p + a.len() + b.len()) =~= b);
}

proof fn lemma_at_split3(
    t: Seq<SpecToken>,
    p: int,
    a: Seq<SpecToken>,
    b: Seq<SpecToken>,
    c: Seq<SpecToken>,
)
    requires
        at(t, p, a + b + c),
    ensures
        at(t, p, a),
        at(t, p + a.len(), b),
        at(t, p + a.len() + b.len(), c),
{
    lemma_at_split(t, p, a + b, c);
    lemma_at_split(t, p, a, b);
}

/// Every printed expression has a first token, and it is never `)`.
proof fn lemma_print_opens(e: SpecExpr)
    ensures
        print_unary(e).len() > 0,
        print_unary(e)[0] != SpecToken::RParen,
        print_term(e).len() > 0,
        print_term(e)[0] != SpecToken::RParen,
        print_expr(e).len() > 0,
        print_expr(e)[0] != SpecToken::RParen,
    decreases e,
{
    match e {
        SpecExpr::BinOp(l, op, r) => {
            lemma_print_opens(*l);
            if is_additive(op) {
                assert(print_bin(e) == print_expr(*l) + seq![op_token(op)] + print_term(*r));
                assert(print_bin(e)[0] == print_expr(*l)[0]);
            } else {
                assert(print_bin(e) == print_term(*l) + seq![op_token(op)] + print_unary(*r));
                assert(print_bin(e)[0] == print_term(*l)[0]);
            }
            assert(print_unary(e) == print_primary(e));
            assert(print_primary(e) == seq![SpecToken::LParen] + print_bin(e) + seq![SpecToken::RParen]);
            assert(print_primary(e)[0] == SpecToken::LParen);
        },
        SpecExpr::Neg(x) => {
            assert(print_unary(e) == seq![SpecToken::Minus] + print_unary(*x));
            assert(print_unary(e)[0] == SpecToken::Minus);
        },
        SpecExpr::Call(name, args) => {
            assert(print_unary(e) == print_primary(e));
            assert(print_primary(e)[0] == SpecToken::Ident(name));
        },
        SpecExpr::Range(a, b) => {
            assert(print_unary(e) == print_primary(e));
            assert(print_primary(e)[0] == SpecToken::Cell(a));
        },
        _ => {
            assert(print_unary(e) == print_primary(e));
        },
    }
}

#[verifier::rlimit(40)]
proof fn lemma_parse_printed_primary(t: Seq<SpecToken>, p: int, e: SpecExpr)
    requires
        at(t, p, print_primary(e)),
        !is_tok(t, p + print_primary(e).len(), SpecToken::Colon),
    ensures
        p_primary(t, p) == Ok::<(SpecExpr, int), SpecParseError>((e, p + print_primary(e).len())),
    decreases e, 1int,
{
    let x = print_primary(e);
    let q = p + x.len();
    lemma_at_index(t, p, x, 0);
    match e {
        SpecExpr::Number(n) => {},
        SpecExpr::Cell(c) => {},
        SpecExpr::Range(a, b) => {
            lemma_at_index(t, p, x, 1);
            lemma_at_index(t, p, x, 2);
        },
        SpecExpr::Neg(y) => {
            let u = print_unary(*y);
            let open = seq![SpecToken::LParen, SpecToken::Minus];
            let close = seq![SpecToken::RParen];
            lemma_at_split3(t, p, open, u, close);
            lemma_at_index(t, p, open, 1);
            lemma_at_index(t, q - 1, close, 0);
            lemma_parse_printed_unary(t, p + 2, *y);
            assert(p_unary(t, p + 1) == Ok::<(SpecExpr, int), SpecParseError>((e, q - 1)));
            assert(p_term(t, p + 1) == Ok::<(SpecExpr, int), SpecParseError>((e, q - 1)));
            assert(p_expr(t, p + 1) == Ok::<(SpecExpr, int), SpecParseError>((e, q - 1)));
        },
        SpecExpr::BinOp(l, op, r) => {
            let open = seq![SpecToken::LParen];
            let close = seq![SpecToken::RParen];
            lemma_at_split3(t, p, open, print_bin(e), close);
            lemma_at_index(t, q - 1, close, 0);
            if is_additive(op) {
                lemma_parse_expr_bin(t, p + 1, e);
            } else {
                lemma_parse_term_bin(t, p + 1, e);
                assert(p_term(t, p + 1) == Ok::<(SpecExpr, int), SpecParseError>((e, q - 1)));
            }
            assert(p_expr(t, p + 1) == Ok::<(SpecExpr, int), SpecParseError>((e, q - 1)));
        },
        SpecExpr::Call(_, _) => {
            lemma_parse_printed_call(t, p, e);
        },
    }
}

proof fn lemma_parse_printed_call(t: Seq<SpecToken>, p: int, e: SpecExpr)
    requires
        e is Call,
        at(t, p, print_primary(e)),
    ensures
        p_primary(t, p) == Ok::<(SpecExpr, int), SpecParseError>((e, p + print_primary(e).len())),
    decreases e, 0int,
{
    let x = print_primary(e);
    let q = p + x.len();
    lemma_at_index(t, p, x, 0);
    match e {
        SpecExpr::Call(name, args) => {
            let open = seq![SpecToken::Ident(name), SpecToken::LParen];
            let close = seq![SpecToken::RParen];
            let a = print_args(args);
            lemma_at_split3(t, p, open, a, close);
            lemma_at_index(t, p, open, 1);
            lemma_at_index(t, q - 1, close, 0);
            if args.len() == 0 {
                assert(args =~= Seq::<SpecExpr>::empty());
            } else {
                let first = args[0];
                let rest = args.drop_first();
                let pe = print_expr(first);
                let pm = print_more(rest);
                assert(a == pe + pm);
                lemma_at_split(t, p + 2, pe, pm);
                lemma_print_opens(first);
                lemma_at_index(t, p + 2, pe, 0);
                let q0 = p + 2 + pe.len();
                if rest.len() > 0 {
                    lemma_at_index(t, q0, pm, 0);
                } else {
                    assert(q0 == q - 1);
                }
                assert(decreases_to!(e => args));
                assert(decreases_to!(args => first));
                assert(decreases_to!(args => rest));
                lemma_parse_printed_expr(t, p + 2, first);
                assert(p_expr(t, p + 2) == Ok::<(SpecExpr, int), SpecParseError>((first, q0)));
                lemma_parse_printed_more(t, q0, rest, seq![first]);
                assert(seq![first] + rest =~= args);
            }
        },
        _ => {},
    }
}

proof fn lemma_parse_printed_unary(t: Seq<SpecToken>, p: int, e: SpecExpr)
    requires
        at(t, p, print_unary(e)),
        !is_tok(t, p + print_unary(e).len(), SpecToken::Colon),
    ensures
        p_unary(t, p) == Ok::<(SpecExpr, int), SpecParseError>((e, p + print_unary(e).len())),
    decreases e, 2int,
{
    let x = print_unary(e);
    match e {
        SpecExpr::Neg(y) => {
            lemma_at_split(t, p, seq![SpecToken::Minus], print_unary(*y));
            lemma_at_index(t, p, seq![SpecToken::Minus], 0);
            lemma_parse_printed_unary(t, p + 1, *y);
        },
        _ => {
            assert(x == print_primary(e));
            lemma_at_index(t, p, x, 0);
            match e {
                SpecExpr::BinOp(_, _, _) => {
                    assert(x[0] == SpecToken::LParen);
                },
                SpecExpr::Call(name, _) => {
                    assert(x[0] == SpecToken::Ident(name));
                },
                SpecExpr::Range(a, _) => {
                    assert(x[0] == SpecToken::Cell(a));
                },
                _ => {},
            }
            lemma_parse_printed_primary(t, p, e);
        },
    }
}

proof fn lemma_parse_term_bin(t: Seq<SpecToken>, p: int, e: SpecExpr)
    requires
        e matches SpecExpr::BinOp(_, op, _) && !is_additive(op),
        at(t, p, print_bin(e)),
        !is_tok(t, p + print_bin(e).len(), SpecToken::Colon),
    ensures
        p_term(t, p) == p_term_rest(t, p + print_bin(e).len(), e),
    decreases e, 0int,
{
    if let SpecExpr::BinOp(l, op, r) = e {
        let a = print_term(*l);
        let o = seq![op_token(op)];
        let b = print_unary(*r);
        let q1 = p + a.len();
        let q = q1 + 1 + b.len();
        lemma_at_split3(t, p, a, o, b);
        lemma_at_index(t, q1, o, 0);
        lemma_parse_printed_term(t, p, *l);
        lemma_parse_printed_unary(t, q1 + 1, *r);
        assert(mul_op(peek(t, q1)) == Some(op));
    }
}

proof fn lemma_parse_printed_term(t: Seq<SpecToken>, p: int, e: SpecExpr)
    requires
        at(t, p, print_term(e)),
        !is_tok(t, p + print_term(e).len(), SpecToken::Colon),
    ensures
        p_term(t, p) == p_term_rest(t, p + print_term(e).len(), e),
    decreases e, 3int,
{
    if e matches SpecExpr::BinOp(_, op, _) && !is_additive(op) {
        lemma_parse_term_bin(t, p, e);
    } else {
        assert(print_term(e) == print_unary(e));
        lemma_parse_printed_unary(t, p, e);
    }
}

proof fn lemma_parse_expr_bin(t: Seq<SpecToken>, p: int, e: SpecExpr)
    requires
        e matches SpecExpr::BinOp(_, op, _) && is_additive(op),
        at(t, p, print_bin(e)),
        !is_tok(t, p + print_bin(e).len(), SpecToken::Colon),
        mul_op(peek(t, p + print_bin(e).len())) is None,
    ensures
        p_expr(t, p) == p_expr_rest(t, p + print_bin(e).len(), e),
    decreases e, 0int,
{
    if let SpecExpr::BinOp(l, op, r) = e {
        let a = print_expr(*l);
        let o = seq![op_token(op)];
        let b = print_term(*r);
        let q1 = p + a.len();
        let q = q1 + 1 + b.len();
        lemma_at_split3(t, p, a, o, b);
        lemma_at_index(t, q1, o, 0);
        lemma_parse_printed_expr(t, p, *l);
        lemma_parse_printed_term(t, q1 + 1, *r);
        assert(add_op(peek(t, q1)) == Some(op));
        assert(p_term(t, q1 + 1) == Ok::<(SpecExpr, int), SpecParseError>((*r, q)));
    }
}

proof fn lemma_parse_printed_expr(t: Seq<SpecToken>, p: int, e: SpecExpr)
    requires
        at(t, p, print_expr(e)),
        !is_tok(t, p + print_expr(e).len(), SpecToken::Colon),
        mul_op(peek(t, p + print_expr(e).len())) is None,
    ensures
        p_expr(t, p) == p_expr_rest(t, p + print_expr(e).len(), e),
    decreases e, 4int,
{
    if e matches SpecExpr::BinOp(_, op, _) && is_additive(op) {
        lemma_parse_expr_bin(t, p, e);
    } else {
        assert(print_expr(e) == print_term(e));
        lemma_parse_printed_term(t, p, e);
    }
}

proof fn lemma_parse_printed_more(t: Seq<SpecToken>, p: int, args: Seq<SpecExpr>, acc: Seq<SpecExpr>)
    requires
        at(t, p, print_more(args)),
        is_tok(t, p + print_more(args).len(), SpecToken::RParen),
    ensures
        p_args(t, p, acc) == Ok::<(Seq<SpecExpr>, int), SpecParseError>(
            (acc + args, p + print_more(args).len()),
        ),
    decreases args, 0int,
{
    if args.len() == 0 {
        assert(acc + args =~= acc);
    } else {
        let first = args[0];
        let rest = args.drop_first();
        let c = seq![SpecToken::Comma];
        let pe = print_expr(first);
        let pm = print_more(rest);
        lemma_at_split3(t, p, c, pe, pm);
        lemma_at_index(t, p, c, 0);
        let q0 = p + 1 + pe.len();
        if rest.len() > 0 {
            lemma_at_index(t, q0, pm, 0);
        }
        lemma_parse_printed_expr(t, p + 1, first);
        lemma_parse_printed_more(t, q0, rest, acc.push(first));
        assert(acc.push(first) + rest =~= acc + args);
    }
}

/// Writing an expression out as tokens, with parentheses only where the
/// precedence needs them, and parsing those tokens gives the expression
/// back, whatever the expression: unary signs bind tightest, then `*` and
/// `/`, then `+` and `-`, and operators of one level group to the left.
pub proof fn lemma_parse_printed(e: SpecExpr)
    ensures
        parse_tokens(print_expr(e)) == Ok::<SpecExpr, SpecParseError>(e),
{
    let t = print_expr(e);
    assert(t.subrange(0, t.len() as int) == t);
    lemma_parse_printed_expr(t, 0, e);
}

proof fn lemma_print_number(n: Seq<char>)
    ensures
        print_unary(SpecExpr::Number(n)) == seq![SpecToken::Number(n)],
        print_term(SpecExpr::Number(n)) == seq![SpecToken::Number(n)],
        print_expr(SpecExpr::Number(n)) == seq![SpecToken::Number(n)],
{
    let e = SpecExpr::Number(n);
    assert(print_primary(e) == seq![SpecToken::Number(n)]);
    assert(print_unary(e) == print_primary(e));
    assert(print_term(e) == print_unary(e));
    assert(print_expr(e) == print_term(e));
}

/// The binary operation `l op r` on two operands.
pub open spec fn bin(l: SpecExpr, op: BinOp, r: SpecExpr) -> SpecExpr {
    SpecExpr::BinOp(Box::new(l), op, Box::new(r))
}

/// `a o1 b o2 c`, with numbers `a`, `b`, `c` and two operators of one
/// level (both `+`/`-`, or both `*`/`/`), is `(a o1 b) o2 c`.
pub proof fn lemma_parse_left_assoc(a: Seq<char>, b: Seq<char>, c: Seq<char>, o1: BinOp, o2: BinOp)
    requires
        is_additive(o1) == is_additive(o2),
    ensures
        parse_tokens(
            seq![
                SpecToken::Number(a),
                op_token(o1),
                SpecToken::Number(b),
                op_token(o2),
                SpecToken::Number(c),
            ],
        ) == Ok::<SpecExpr, SpecParseError>(
            bin(bin(SpecExpr::Number(a), o1, SpecExpr::Number(b)), o2, SpecExpr::Number(c)),
        ),
{
    let na = SpecExpr::Number(a);
    let nb = SpecExpr::Number(b);
    let nc = SpecExpr::Number(c);
    let inner = bin(na, o1, nb);
    let e = bin(inner, o2, nc);
    lemma_print_number(a);
    lemma_print_number(b);
    lemma_print_number(c);
    if is_additive(o1) {
        assert(print_expr(inner) == print_expr(na) + seq![op_token(o1)] + print_term(nb));
        assert(print_expr(e) == print_expr(inner) + seq![op_token(o2)] + print_term(nc));
    } else {
        assert(print_term(inner) == print_term(na) + seq![op_token(o1)] + print_unary(nb));
        assert(print_term(e) == print_term(inner) + seq![op_token(o2)] + print_unary(nc));
        assert(print_expr(e) == print_term(e));
    }
    assert(print_expr(e) =~= seq![
        SpecToken::Number(a),
        op_token(o1),
        SpecToken::Number(b),
        op_token(o2),
        SpecToken::Number(c),
    ]);
    lemma_parse_printed(e);
}

/// `*` and `/` bind tighter than `+` and `-` on either side: with numbers
/// `a`, `b`, `c`, a multiplicative `m` and an additive `s`, `a m b s c` is
/// `(a m b) s c` and `a s b m c` is `a s (b m c)`.
pub proof fn lemma_parse_product_first(a: Seq<char>, b: Seq<char>, c: Seq<char>, m: BinOp, s: BinOp)
    requires
        !is_additive(m),
        is_additive(s),
    ensures
        parse_tokens(
            seq![
                SpecToken::Number(a),
                op_token(m),
                SpecToken::Number(b),
                op_token(s),
                SpecToken::Number(c),
            ],
        ) == Ok::<SpecExpr, SpecParseError>(
            bin(bin(SpecExpr::Number(a), m, SpecExpr::Number(b)), s, SpecExpr::Number(c)),
        ),
        parse_tokens(
            seq![
                SpecToken::Number(a),
                op_token(s),
                SpecToken::Number(b),
                op_token(m),
                SpecToken::Number(c),
            ],
        ) == Ok::<SpecExpr, SpecParseError>(
            bin(SpecExpr::Number(a), s, bin(SpecExpr::Number(b), m, SpecExpr::Number(c))),
        ),
{
    let na = SpecExpr::Number(a);
    let nb = SpecExpr::Number(b);
    let nc = SpecExpr::Number(c);
    lemma_print_number(a);
    lemma_print_number(b);
    lemma_print_number(c);
    let p1 = bin(na, m, nb);
    let e1 = bin(p1, s, nc);
    assert(print_term(p1) == print_term(na) + seq![op_token(m)] + print_unary(nb));
    assert(print_expr(p1) == print_term(p1));
    assert(print_expr(e1) == print_expr(p1) + seq![op_token(s)] + print_term(nc));
    assert(print_expr(e1) =~= seq![
        SpecToken::Number(a),
        op_token(m),
        SpecToken::Number(b),
        op_token(s),
        SpecToken::Number(c),
    ]);
    lemma_parse_printed(e1);
    let p2 = bin(nb, m, nc);
    let e2 = bin(na, s, p2);
    assert(print_term(p2) == print_term(nb) + seq![op_token(m)] + print_unary(nc));
    assert(print_expr(e2) == print_expr(na) + seq![op_token(s)] + print_term(p2));
    assert(print_expr(e2) =~= seq![
        SpecToken::Number(a),
        op_token(s),
        SpecToken::Number(b),
        op_token(m),
        SpecToken::Number(c),
    ]);
    lemma_parse_printed(e2);
}

} // verus!
