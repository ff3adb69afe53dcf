use vstd::prelude::*;

use crate::address::{a1_cell, a1_overflows, a1_text, lemma_a1_round_trip, lemma_a1_text_word, CellRef};
use crate::text::{
    chars_of, is_alnum, is_alnum_char, is_alpha, is_alpha_char, is_digit, is_digit_char, push_char,
    push_chars, string_of,
};

verus! {

/// A lexical token of a formula body (the part after the leading `=`).
/// A number is kept as the text it was written with: a digit followed by
/// digits and at most one `.`.
#[derive(Debug, Clone, PartialEq)]
pub enum Token {
    Number(String),
    Cell(CellRef),
    Ident(String),
    Plus,
    Minus,
    Star,
    Slash,
    Colon,
    Comma,
    LParen,
    RParen,
}

/// A token as the contracts see it: text as a sequence of characters.
pub enum SpecToken {
    Number(Seq<char>),
    Cell(CellRef),
    Ident(Seq<char>),
    Plus,
    Minus,
    Star,
    Slash,
    Colon,
    Comma,
    LParen,
    RParen,
}

impl View for Token {
    type V = SpecToken;

    open spec fn view(&self) -> SpecToken {
        match self {
            Token::Number(s) => SpecToken::Number(s@),
            Token::Cell(c) => SpecToken::Cell(*c),
            Token::Ident(s) => SpecToken::Ident(s@),
            Token::Plus => SpecToken::Plus,
            Token::Minus => SpecToken::Minus,
            Token::Star => SpecToken::Star,
            Token::Slash => SpecToken::Slash,
            Token::Colon => SpecToken::Colon,
            Token::Comma => SpecToken::Comma,
            Token::LParen => SpecToken::LParen,
            Token::RParen => SpecToken::RParen,
        }
    }
}

/// The tokens of a token vector, as the contracts see them.
pub open spec fn tokens_view(v: Seq<Token>) -> Seq<SpecToken> {
    v.map_values(|t: Token| t@)
}

/// What lexing gives: tokens, an error message, or a column number too large
/// for `u32` in a cell-like word (which overflows).
pub enum Lexed {
    Tokens(Seq<SpecToken>),
    Error(Seq<char>),
    Overflow,
}

/// The first position at or after `i` that does not continue a number.
pub open spec fn number_end(chars: Seq<char>, i: int) -> int
    decreases chars.len() - i,
{
    if 0 <= i < chars.len() && (is_digit(chars[i]) || chars[i] == '.') {
        number_end(chars, i + 1)
    } else {
        i
    }
}

/// The first position at or after `i` that does not continue a word.
pub open spec fn word_end(chars: Seq<char>, i: int) -> int
    decreases chars.len() - i,
{
    if 0 <= i < chars.len() && is_alnum(chars[i]) {
        word_end(chars, i + 1)
    } else {
        i
    }
}

/// The number of `.` in `s`.
pub open spec fn count_dots(s: Seq<char>) -> int
    decreases s.len(),
{
    if s.len() == 0 {
        0
    } else {
        count_dots(s.drop_last()) + if s.last() == '.' { 1int } else { 0int }
    }
}

/// `t` in front of what follows.
pub open spec fn lex_cons(t: SpecToken, rest: Lexed) -> Lexed {
    match rest {
        Lexed::Tokens(ts) => Lexed::Tokens(seq![t] + ts),
        other => other,
    }
}

/// The tokens `ts` in front of what follows.
pub open spec fn lex_prefix(ts: Seq<SpecToken>, rest: Lexed) -> Lexed {
    match rest {
        Lexed::Tokens(more) => Lexed::Tokens(ts + more),
        other => other,
    }
}

pub proof fn lemma_number_end(chars: Seq<char>, i: int)
    requires
        0 <= i,
    ensures
        i <= number_end(chars, i),
        number_end(chars, i) <= chars.len() || number_end(chars, i) == i,
        forall|k: int| i <= k < number_end(chars, i) ==> is_digit(#[trigger] chars[k]) || chars[k] == '.',
    decreases chars.len() - i,
{
    if 0 <= i < chars.len() && (is_digit(chars[i]) || chars[i] == '.') {
        lemma_number_end(chars, i + 1);
    }
}

pub proof fn lemma_word_end(chars: Seq<char>, i: int)
    requires
        0 <= i,
    ensures
        i <= word_end(chars, i),
        word_end(chars, i) <= chars.len() || word_end(chars, i) == i,
        forall|k: int| i <= k < word_end(chars, i) ==> is_alnum(#[trigger] chars[k]),
    decreases chars.len() - i,
{
    if 0 <= i < chars.len() && is_alnum(chars[i]) {
        lemma_word_end(chars, i + 1);
    }
}

proof fn lemma_prefix_cons(ts: Seq<SpecToken>, t: SpecToken, rest: Lexed)
    ensures
        lex_prefix(ts, lex_cons(t, rest)) == lex_prefix(ts + seq![t], rest),
{
    if let Lexed::Tokens(more) = rest {
        assert(ts + (seq![t] + more) =~= ts + seq![t] + more);
    }
}

/// Lexes `chars[i..]`.
pub open spec fn lex_from(chars: Seq<char>, i: int) -> Lexed
    decreases chars.len() - i,
{
    if i < 0 || i >= chars.len() {
        Lexed::Tokens(seq![])
    } else {
        let c = chars[i];
        if c == ' ' || c == '\t' {
            lex_from(chars, i + 1)
        } else if c == '+' {
            lex_cons(SpecToken::Plus, lex_from(chars, i + 1))
        } else if c == '-' {
            lex_cons(SpecToken::Minus, lex_from(chars, i + 1))
        } else if c == '*' {
            lex_cons(SpecToken::Star, lex_from(chars, i + 1))
        } else if c == '/' {
            lex_cons(SpecToken::Slash, lex_from(chars, i + 1))
        } else if c == ':' {
            lex_cons(SpecToken::Colon, lex_from(chars, i + 1))
        } else if c == ',' {
            lex_cons(SpecToken::Comma, lex_from(chars, i + 1))
        } else if c == '(' {
            lex_cons(SpecToken::LParen, lex_from(chars, i + 1))
        } else if c == ')' {
            lex_cons(SpecToken::RParen, lex_from(chars, i + 1))
        } else if is_digit(c) {
            proof {
                lemma_number_end(chars, i + 1);
            }
            let j = number_end(chars, i + 1);
            let text = chars.subrange(i, j);
            if count_dots(text) <= 1 {
                lex_cons(SpecToken::Number(text), lex_from(chars, j))
            } else {
                Lexed::Error("invalid number: "@ + text)
            }
        } else if is_alpha(c) {
            proof {
                lemma_word_end(chars, i + 1);
            }
            let j = word_end(chars, i + 1);
            let text = chars.subrange(i, j);
            if a1_overflows(text) {
                Lexed::Overflow
            } else {
                match a1_cell(text) {
                    Some(cell) => lex_cons(SpecToken::Cell(cell), lex_from(chars, j)),
                    None => lex_cons(SpecToken::Ident(text), lex_from(chars, j)),
                }
            }
        } else {
            Lexed::Error("unexpected character: "@.push(c))
        }
    }
}

/// Where the formula body starts: after a leading `=`, if there is one.
pub open spec fn body_start(s: Seq<char>) -> int {
    if s.len() > 0 && s[0] == '=' {
        1
    } else {
        0
    }
}

/// The lexing of formula text.
pub open spec fn lex(s: Seq<char>) -> Lexed {
    lex_from(s, body_start(s))
}

proof fn lemma_word_end_all(chars: Seq<char>, i: int)
    requires
        0 <= i <= chars.len(),
        forall|k: int| i <= k < chars.len() ==> is_alnum(#[trigger] chars[k]),
    ensures
        word_end(chars, i) == chars.len(),
    decreases chars.len() - i,
{
    if i < chars.len() {
        lemma_word_end_all(chars, i + 1);
    }
}

proof fn lemma_lex_word_at(chars: Seq<char>, i: int)
    requires
        0 <= i < chars.len(),
        is_alpha(chars[i]),
        forall|k: int| i <= k < chars.len() ==> is_alnum(#[trigger] chars[k]),
        !a1_overflows(chars.subrange(i, chars.len() as int)),
    ensures
        a1_cell(chars.subrange(i, chars.len() as int)) matches Some(c) ==> lex_from(chars, i)
            == Lexed::Tokens(seq![SpecToken::Cell(c)]),
        a1_cell(chars.subrange(i, chars.len() as int)) is None ==> lex_from(chars, i)
            == Lexed::Tokens(seq![SpecToken::Ident(chars.subrange(i, chars.len() as int))]),
{
    lemma_word_end_all(chars, i + 1);
    let n = chars.len() as int;
    assert(lex_from(chars, n) == Lexed::Tokens(Seq::<SpecToken>::empty()));
    match a1_cell(chars.subrange(i, n)) {
        Some(c) => {
            assert(seq![SpecToken::Cell(c)] + Seq::<SpecToken>::empty() =~= seq![SpecToken::Cell(c)]);
        },
        None => {
            let w = chars.subrange(i, n);
            assert(seq![SpecToken::Ident(w)] + Seq::<SpecToken>::empty() =~= seq![SpecToken::Ident(w)]);
        },
    }
}

/// A word (a letter, then letters and digits) lexes as a single token, with
/// or without the leading `=`: the cell it names when it reads as A1 text,
/// and an identifier only when it does not.
pub proof fn lemma_lex_word(w: Seq<char>)
    requires
        w.len() > 0,
        is_alpha(w[0]),
        forall|k: int| 0 <= k < w.len() ==> is_alnum(#[trigger] w[k]),
        !a1_overflows(w),
    ensures
        a1_cell(w) matches Some(c) ==> lex(w) == Lexed::Tokens(seq![SpecToken::Cell(c)]),
        a1_cell(w) matches Some(c) ==> lex(seq!['='] + w) == Lexed::Tokens(seq![SpecToken::Cell(c)]),
        a1_cell(w) is None ==> lex(w) == Lexed::Tokens(seq![SpecToken::Ident(w)]),
        a1_cell(w) is None ==> lex(seq!['='] + w) == Lexed::Tokens(seq![SpecToken::Ident(w)]),
{
    assert(w.subrange(0, w.len() as int) == w);
    lemma_lex_word_at(w, 0);
    let v = seq!['='] + w;
    assert forall|k: int| 1 <= k < v.len() implies is_alnum(#[trigger] v[k]) by {
        assert(v[k] == w[k - 1]);
    }
    assert(v.subrange(1, v.len() as int) == w);
    assert(v[1] == w[0]);
    lemma_lex_word_at(v, 1);
}

/// The A1 text of any cell, with or without the leading `=`, lexes as one
/// token: that cell.
pub proof fn lemma_lex_cell_text(c: CellRef)
    requires
        c.col < u32::MAX,
        c.row < u32::MAX,
    ensures
        lex(a1_text(c)) == Lexed::Tokens(seq![SpecToken::Cell(c)]),
        lex(seq!['='] + a1_text(c)) == Lexed::Tokens(seq![SpecToken::Cell(c)]),
{
    lemma_a1_round_trip(c);
    lemma_a1_text_word(c);
    let w = a1_text(c);
    assert(is_alpha(w[0]));
    lemma_lex_word(w);
}

/// The text that writes a token.
pub open spec fn token_text(t: SpecToken) -> Seq<char> {
    match t {
        SpecToken::Number(n) => n,
        SpecToken::Cell(c) => a1_text(c),
        SpecToken::Ident(w) => w,
        SpecToken::Plus => seq!['+'],
        SpecToken::Minus => seq!['-'],
        SpecToken::Star => seq!['*'],
        SpecToken::Slash => seq!['/'],
        SpecToken::Colon => seq![':'],
        SpecToken::Comma => seq![','],
        SpecToken::LParen => seq!['('],
        SpecToken::RParen => seq![')'],
    }
}

/// A token that lexing can give: a number is a digit followed by digits and
/// at most one `.` in all; a cell has A1 text; an identifier is a word (a
/// letter, then letters and digits) that does not read as a cell.
pub open spec fn lexable(t: SpecToken) -> bool {
    match t {
        SpecToken::Number(n) => {
            &&& n.len() > 0
            &&& is_digit(n[0])
            &&& forall|k: int| 0 <= k < n.len() ==> is_digit(#[trigger] n[k]) || n[k] == '.'
            &&& count_dots(n) <= 1
        },
        SpecToken::Cell(c) => c.col < u32::MAX && c.row < u32::MAX,
        SpecToken::Ident(w) => {
            &&& w.len() > 0
            &&& is_alpha(w[0])
            &&& forall|k: int| 0 <= k < w.len() ==> is_alnum(#[trigger] w[k])
            &&& a1_cell(w) is None
            &&& !a1_overflows(w)
        },
        _ => true,
    }
}

/// Tokens written out, each followed by a space.
pub open spec fn spaced(ts: Seq<SpecToken>) -> Seq<char>
    decreases ts.len(),
{
    if ts.len() == 0 {
        seq![]
    } else {
        token_text(ts[0]) + seq![' '] + spaced(ts.drop_first())
    }
}

proof fn lemma_word_end_stop(chars: Seq<char>, i: int, j: int)
    requires
        0 <= i <= j < chars.len(),
        forall|k: int| i <= k < j ==> is_alnum(#[trigger] chars[k]),
        !is_alnum(chars[j]),
    ensures
        word_end(chars, i) == j,
    decreases j - i,
{
    if i < j {
        lemma_word_end_stop(chars, i + 1, j);
    }
}

proof fn lemma_number_end_stop(chars: Seq<char>, i: int, j: int)
    requires
        0 <= i <= j < chars.len(),
        forall|k: int| i <= k < j ==> is_digit(#[trigger] chars[k]) || chars[k] == '.',
        chars[j] == ' ',
    ensures
        number_end(chars, i) == j,
    decreases j - i,
{
    if i < j {
        lemma_number_end_stop(chars, i + 1, j);
    }
}

proof fn lemma_lex_token_at(chars: Seq<char>, i: int, t: SpecToken)
    requires
        lexable(t),
        0 <= i,
        i + token_text(t).len() < chars.len(),
        chars.subrange(i, i + token_text(t).len()) == token_text(t),
        chars[i + token_text(t).len()] == ' ',
    ensures
        lex_from(chars, i) == lex_cons(t, lex_from(chars, i + token_text(t).len() + 1)),
{
    let w = token_text(t);
    let j = i + w.len();
    assert forall|k: int| i <= k < j implies chars[k] == w[k - i] by {
        assert(chars.subrange(i, j)[k - i] == chars[k]);
    }
    assert(lex_from(chars, j) == lex_from(chars, j + 1));
    match t {
        SpecToken::Number(n) => {
            assert(chars[i] == n[0]);
            lemma_number_end_stop(chars, i + 1, j);
        },
        SpecToken::Cell(c) => {
            lemma_a1_round_trip(c);
            lemma_a1_text_word(c);
            assert(chars[i] == w[0]);
            assert forall|k: int| i + 1 <= k < j implies is_alnum(#[trigger] chars[k]) by {
                assert(chars[k] == w[k - i]);
            }
            lemma_word_end_stop(chars, i + 1, j);
        },
        SpecToken::Ident(_) => {
            assert(chars[i] == w[0]);
            assert forall|k: int| i + 1 <= k < j implies is_alnum(#[trigger] chars[k]) by {
                assert(chars[k] == w[k - i]);
            }
            lemma_word_end_stop(chars, i + 1, j);
        },
        _ => {
            assert(chars[i] == w[0]);
        },
    }
}

proof fn lemma_lex_spaced_at(chars: Seq<char>, i: int, ts: Seq<SpecToken>)
    requires
        forall|k: int| 0 <= k < ts.len() ==> lexable(#[trigger] ts[k]),
        0 <= i,
        i + spaced(ts).len() == chars.len(),
        chars.subrange(i, chars.len() as int) == spaced(ts),
    ensures
        lex_from(chars, i) == Lexed::Tokens(ts),
    decreases ts.len(),
{
    let n = chars.len() as int;
    if ts.len() == 0 {
        assert(ts =~= Seq::<SpecToken>::empty());
    } else {
        let t = ts[0];
        let rest = ts.drop_first();
        let w = token_text(t);
        let j = i + w.len();
        assert(spaced(ts) == w + seq![' '] + spaced(rest));
        assert(chars.subrange(i, j) =~= chars.subrange(i, n).subrange(0, w.len() as int));
        assert(chars.subrange(i, j) =~= w);
        assert(chars[j] == chars.subrange(i, n)[w.len() as int]);
        assert(chars.subrange(j + 1, n) =~= chars.subrange(i, n).subrange(w.len() as int + 1, n - i));
        assert(chars.subrange(j + 1, n) =~= spaced(rest));
        assert(lexable(ts[0]));
        lemma_lex_token_at(chars, i, t);
        assert forall|k: int| 0 <= k < rest.len() implies lexable(#[trigger] rest[k]) by {
            assert(rest[k] == ts[k + 1]);
        }
        lemma_lex_spaced_at(chars, j + 1, rest);
        assert(seq![t] + rest =~= ts);
    }
}

/// Lexing gives back any tokens that it can give, written out one after
/// another with a space after each, with or without the leading `=`.
pub proof fn lemma_lex_spaced(ts: Seq<SpecToken>)
    requires
        forall|k: int| 0 <= k < ts.len() ==> lexable(#[trigger] ts[k]),
    ensures
        lex(spaced(ts)) == Lexed::Tokens(ts),
        lex(seq!['='] + spaced(ts)) == Lexed::Tokens(ts),
{
    let s = spaced(ts);
    assert(s.subrange(0, s.len() as int) == s);
    if ts.len() > 0 {
        let t = ts[0];
        assert(s == token_text(t) + seq![' '] + spaced(ts.drop_first()));
        assert(lexable(t));
        if let SpecToken::Cell(c) = t {
            lemma_a1_text_word(c);
        }
        assert(token_text(t).len() > 0);
        assert(s[0] == token_text(t)[0]);
        assert(s[0] != '=');
    }
    lemma_lex_spaced_at(s, 0, ts);
    let v = seq!['='] + s;
    assert(v.subrange(1, v.len() as int) == s);
    lemma_lex_spaced_at(v, 1, ts);
}

/// Lexes formula text as `tokenize` does, but gives `None` instead of
/// overflowing on a cell-like word whose column is past `u32::MAX`.
pub fn try_tokenize(formula: &str) -> (res: Option<Result<Vec<Token>, String>>)
    ensures
        res is None <==> lex(formula@) is Overflow,
        res matches Some(Ok(v)) ==> lex(formula@) == Lexed::Tokens(tokens_view(v@)),
        res matches Some(Err(e)) ==> lex(formula@) == Lexed::Error(e@),
{
    let chars = chars_of(formula);
    let n = chars.len();
    let mut i: usize = if n > 0 && chars[0] == '=' {
        1
    } else {
        0
    };
    let ghost whole = lex(formula@);
    let mut tokens: Vec<Token> = Vec::new();
    assert(tokens_view(tokens@) =~= Seq::<SpecToken>::empty());
    assert(lex_prefix(tokens_view(tokens@), lex_from(chars@, i as int)) == whole);
    while i < n
        invariant
            n == chars.len(),
            i <= n,
            chars@ == formula@,
            whole == lex(formula@),
            lex_prefix(tokens_view(tokens@), lex_from(chars@, i as int)) == whole,
        decreases n - i,
    {
        let c = chars[i];
        let ghost i0 = i as int;
        let ghost before = tokens_view(tokens@);
        let single = if c == '+' {
            Some(Token::Plus)
        } else if c == '-' {
            Some(Token::Minus)
        } else if c == '*' {
            Some(Token::Star)
        } else if c == '/' {
            Some(Token::Slash)
        } else if c == ':' {
            Some(Token::Colon)
        } else if c == ',' {
            Some(Token::Comma)
        } else if c == '(' {
            Some(Token::LParen)
        } else if c == ')' {
            Some(Token::RParen)
        } else {
            None
        };
        if c == ' ' || c == '\t' {
            i += 1;
        } else if let Some(t) = single {
            let ghost tv = t@;
            tokens.push(t);
            assert(tokens_view(tokens@) =~= before + seq![tv]);
            i += 1;
            assert(lex_from(chars@, i0) == lex_cons(tv, lex_from(chars@, i as int)));
            proof {
                lemma_prefix_cons(before, tv, lex_from(chars@, i as int));
            }
        } else if is_digit_char(c) {
            let start = i;
            i += 1;
            while i < n && (is_digit_char(chars[i]) || chars[i] == '.')
                invariant
                    start < i <= n,
                    n == chars.len(),
                    number_end(chars@, start + 1) == number_end(chars@, i as int),
                decreases n - i,
            {
                i += 1;
            }
            proof {
                lemma_number_end(chars@, start + 1);
            }
            let ghost text = chars@.subrange(start as int, i as int);
            // Count the dots.
            let mut dots: usize = 0;
            let mut k = start;
            while k < i
                invariant
                    start <= k <= i <= n,
                    n == chars.len(),
                    text == chars@.subrange(start as int, i as int),
                    dots == count_dots(text.take(k - start)),
                    dots <= k - start,
                decreases i - k,
            {
                assert(text.take(k + 1 - start).drop_last() == text.take(k - start));
                if chars[k] == '.' {
                    dots += 1;
                }
                k += 1;
            }
            assert(text.take(i - start) == text);
            if dots > 1 {
                let mut msg = "invalid number: ".to_owned();
                push_chars(&mut msg, &chars, start, i);
                return Some(Err(msg));
            }
            let t = Token::Number(string_of(&chars, start, i));
            let ghost tv = t@;
            tokens.push(t);
            assert(tokens_view(tokens@) =~= before + seq![tv]);
            assert(lex_from(chars@, i0) == lex_cons(tv, lex_from(chars@, i as int)));
            proof {
                lemma_prefix_cons(before, tv, lex_from(chars@, i as int));
            }
        } else if is_alpha_char(c) {
            let start = i;
            i += 1;
            while i < n && is_alnum_char(chars[i])
                invariant
                    start < i <= n,
                    n == chars.len(),
                    word_end(chars@, start + 1) == word_end(chars@, i as int),
                decreases n - i,
            {
                i += 1;
            }
            proof {
                lemma_word_end(chars@, start + 1);
            }
            let text = string_of(&chars, start, i);
            let t = match CellRef::try_parse(text.as_str()) {
                None => {
                    return None;
                },
                Some(Some(cell)) => Token::Cell(cell),
                Some(None) => Token::Ident(text),
            };
            let ghost tv = t@;
            tokens.push(t);
            assert(tokens_view(tokens@) =~= before + seq![tv]);
            assert(lex_from(chars@, i0) == lex_cons(tv, lex_from(chars@, i as int)));
            proof {
                lemma_prefix_cons(before, tv, lex_from(chars@, i as int));
            }
        } else {
            let mut msg = "unexpected character: ".to_owned();
            push_char(&mut msg, c);
            return Some(Err(msg));
        }
    }
    assert(lex_from(chars@, i as int) == Lexed::Tokens(Seq::<SpecToken>::empty()));
    assert(tokens_view(tokens@) + Seq::<SpecToken>::empty() == tokens_view(tokens@));
    Some(Ok(tokens))
}

/// Splits formula text (with or without its leading `=`) into tokens:
/// numbers, cell references, identifiers, `+ - * / : , ( )`; spaces and tabs
/// separate tokens. A word of letters and digits is a cell reference when it
/// reads as one, otherwise an identifier.
pub fn tokenize(formula: &str) -> (res: Result<Vec<Token>, String>)
    requires
        lex(formula@) !is Overflow,
    ensures
        res matches Ok(v) ==> lex(formula@) == Lexed::Tokens(tokens_view(v@)),
        res matches Err(e) ==> lex(formula@) == Lexed::Error(e@),
{
    match try_tokenize(formula) {
        Some(res) => res,
        // Not reached: `requires` rules out the overflow.
        None => Err(String::new()),
    }
}

} // verus!
