use cellgrid_formulas::formula::{tokenize, try_tokenize, Token};
use cellgrid_formulas::CellRef;

#[test]
fn tokenizes_a_sum_range() {
    let tokens = tokenize("=SUM(A1:A3)").unwrap();
    assert_eq!(
        tokens,
        vec![
            Token::Ident("SUM".to_string()),
            Token::LParen,
            Token::Cell(CellRef::new(0, 0)),
            Token::Colon,
            Token::Cell(CellRef::new(0, 2)),
            Token::RParen,
        ]
    );
}

#[test]
fn tokenizes_arithmetic() {
    let tokens = tokenize("=A1+10*2").unwrap();
    assert_eq!(
        tokens,
        vec![
            Token::Cell(CellRef::new(0, 0)),
            Token::Plus,
            Token::Number("10".to_string()),
            Token::Star,
            Token::Number("2".to_string()),
        ]
    );
    // The number text reads as the value the formula means.
    if let Token::Number(text) = &tokens[2] {
        assert_eq!(text.parse::<f64>().unwrap(), 10.0);
    }
}

#[test]
fn rejects_unknown_characters() {
    assert!(tokenize("=A1&B1").is_err());
}

#[test]
fn error_messages_name_the_offending_text() {
    assert_eq!(tokenize("=A1&B1"), Err("unexpected character: &".to_string()));
    assert_eq!(tokenize("=1.2.3+1"), Err("invalid number: 1.2.3".to_string()));
}

#[test]
fn numbers_keep_their_text() {
    assert_eq!(
        tokenize("1.5 + 2. - 007").unwrap(),
        vec![
            Token::Number("1.5".to_string()),
            Token::Plus,
            Token::Number("2.".to_string()),
            Token::Minus,
            Token::Number("007".to_string()),
        ]
    );
}

#[test]
fn words_that_are_not_cells_are_identifiers() {
    assert_eq!(
        tokenize("=avg(b2, X0, LOG10)").unwrap(),
        vec![
            Token::Ident("avg".to_string()),
            Token::LParen,
            Token::Cell(CellRef::new(1, 1)),
            Token::Comma,
            Token::Ident("X0".to_string()),
            Token::Comma,
            Token::Cell(CellRef::new(8508, 9)),
            Token::RParen,
        ]
    );
}

#[test]
fn spaces_and_tabs_separate_tokens() {
    assert_eq!(
        tokenize(" \t/ :").unwrap(),
        vec![Token::Slash, Token::Colon]
    );
    assert_eq!(tokenize("="), Ok(vec![]));
    assert_eq!(tokenize(""), Ok(vec![]));
}

#[test]
fn oversized_column_is_reported_instead_of_overflowing() {
    assert_eq!(try_tokenize("=ZZZZZZZ1"), None);
    assert_eq!(try_tokenize("=MWLQKWV1"), None);
    assert_eq!(
        try_tokenize("=MWLQKWU1"),
        Some(Ok(vec![Token::Cell(CellRef::new(4294967294, 0))]))
    );
    assert_eq!(try_tokenize("=ZZZZZZZ"), Some(Ok(vec![Token::Ident("ZZZZZZZ".to_string())])));
    assert_eq!(
        try_tokenize("=B2"),
        Some(Ok(vec![Token::Cell(CellRef::new(1, 1))]))
    );
}
