use cellgrid_formulas::formula::{tokenize, Token};
use cellgrid_formulas::parser::ParseError;
use cellgrid_formulas::{parse, BinOp, CellRef, Expr};

fn parse_str(formula: &str) -> Expr {
    parse(&tokenize(formula).unwrap()).unwrap()
}

fn num(text: &str) -> Box<Expr> {
    Box::new(Expr::Number(text.to_string()))
}

#[test]
fn multiplication_binds_tighter_than_addition() {
    // 1+2*3 should be 1+(2*3), not (1+2)*3.
    let expr = parse_str("=1+2*3");
    assert_eq!(
        expr,
        Expr::BinOp(
            num("1"),
            BinOp::Add,
            Box::new(Expr::BinOp(num("2"), BinOp::Mul, num("3"))),
        )
    );
}

#[test]
fn parentheses_override_precedence() {
    // (1+2)*3 should keep the addition together.
    let expr = parse_str("=(1+2)*3");
    assert_eq!(
        expr,
        Expr::BinOp(
            Box::new(Expr::BinOp(num("1"), BinOp::Add, num("2"))),
            BinOp::Mul,
            num("3"),
        )
    );
}

#[test]
fn parses_unary_minus() {
    let expr = parse_str("=-5+3");
    assert_eq!(
        expr,
        Expr::BinOp(Box::new(Expr::Neg(num("5"))), BinOp::Add, num("3"))
    );
}

#[test]
fn parses_function_calls_with_a_range_argument() {
    let expr = parse_str("=SUM(A1:A3)");
    assert_eq!(
        expr,
        Expr::Call(
            "SUM".to_string(),
            vec![Expr::Range(CellRef::new(0, 0), CellRef::new(0, 2))],
        )
    );
}

#[test]
fn parses_function_calls_with_multiple_arguments() {
    let expr = parse_str("=MAX(A1,B1,10)");
    assert_eq!(
        expr,
        Expr::Call(
            "MAX".to_string(),
            vec![
                Expr::Cell(CellRef::new(0, 0)),
                Expr::Cell(CellRef::new(1, 0)),
                Expr::Number("10".to_string()),
            ],
        )
    );
}

#[test]
fn rejects_unbalanced_parentheses() {
    let tokens = tokenize("=(1+2").unwrap();
    assert!(parse(&tokens).is_err());
}

#[test]
fn rejects_trailing_tokens() {
    let tokens = tokenize("=1+2)").unwrap();
    assert!(parse(&tokens).is_err());
}

#[test]
fn rejects_function_call_missing_parens() {
    let tokens = tokenize("=SUM").unwrap();
    assert!(parse(&tokens).is_err());
}

#[test]
fn operators_of_equal_rank_group_to_the_left() {
    assert_eq!(
        parse_str("=8-4-2"),
        Expr::BinOp(
            Box::new(Expr::BinOp(num("8"), BinOp::Sub, num("4"))),
            BinOp::Sub,
            num("2"),
        )
    );
    assert_eq!(
        parse_str("=8/4*2"),
        Expr::BinOp(
            Box::new(Expr::BinOp(num("8"), BinOp::Div, num("4"))),
            BinOp::Mul,
            num("2"),
        )
    );
}

#[test]
fn unary_plus_vanishes_and_minus_nests() {
    assert_eq!(parse_str("=+-+-7"), Expr::Neg(Box::new(Expr::Neg(num("7")))));
    assert_eq!(
        parse_str("=2*-A1"),
        Expr::BinOp(num("2"), BinOp::Mul, Box::new(Expr::Neg(Box::new(Expr::Cell(CellRef::new(0, 0)))))),
    );
}

#[test]
fn empty_and_nested_calls() {
    assert_eq!(parse_str("=NOW()"), Expr::Call("NOW".to_string(), vec![]));
    assert_eq!(
        parse_str("=f(g(1),(2))"),
        Expr::Call(
            "f".to_string(),
            vec![
                Expr::Call("g".to_string(), vec![Expr::Number("1".to_string())]),
                Expr::Number("2".to_string()),
            ],
        )
    );
}

#[test]
fn each_parse_error_kind() {
    let err = |f: &str| parse(&tokenize(f).unwrap()).unwrap_err();
    assert_eq!(err("=1 2"), ParseError::TrailingToken(Token::Number("2".to_string())));
    assert_eq!(
        err("=SUM"),
        ParseError::Expected { expected: Token::LParen, found: None }
    );
    assert_eq!(
        err("=SUM+1"),
        ParseError::Expected { expected: Token::LParen, found: Some(Token::Plus) }
    );
    assert_eq!(
        err("=(1+2"),
        ParseError::Expected { expected: Token::RParen, found: None }
    );
    assert_eq!(
        err("=MAX(1,2"),
        ParseError::Expected { expected: Token::RParen, found: None }
    );
    assert_eq!(err("=A1:"), ParseError::ExpectedCellAfterColon(None));
    assert_eq!(
        err("=A1:5"),
        ParseError::ExpectedCellAfterColon(Some(Token::Number("5".to_string())))
    );
    assert_eq!(err("=*3"), ParseError::UnexpectedToken(Token::Star));
    assert_eq!(err("="), ParseError::UnexpectedEnd);
    assert_eq!(err("=1+"), ParseError::UnexpectedEnd);
}

#[test]
fn a_complete_parse_followed_by_any_token_fails() {
    let extra = [
        Token::Number("1".to_string()),
        Token::Cell(CellRef::new(0, 0)),
        Token::Ident("f".to_string()),
        Token::Plus,
        Token::Minus,
        Token::Star,
        Token::Slash,
        Token::Colon,
        Token::Comma,
        Token::LParen,
        Token::RParen,
    ];
    for formula in ["=1", "=A1", "=SUM(A1:B2)", "=(1+2)*-3"] {
        let tokens = tokenize(formula).unwrap();
        assert!(parse(&tokens).is_ok());
        for x in extra.iter() {
            let mut longer = tokens.clone();
            longer.push(x.clone());
            assert!(parse(&longer).is_err(), "{formula} then {x:?}");
        }
    }
}
