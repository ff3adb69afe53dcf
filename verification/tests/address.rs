use cellgrid_formulas::address::expand_range;
use cellgrid_formulas::CellRef;

#[test]
fn parses_single_letter_columns() {
    assert_eq!(CellRef::parse("A1"), Some(CellRef::new(0, 0)));
    assert_eq!(CellRef::parse("b2"), Some(CellRef::new(1, 1)));
}

#[test]
fn parses_double_letter_columns() {
    assert_eq!(CellRef::parse("AA1"), Some(CellRef::new(26, 0)));
}

#[test]
fn rejects_malformed_input() {
    assert_eq!(CellRef::parse("1A"), None);
    assert_eq!(CellRef::parse("A0"), None);
    assert_eq!(CellRef::parse("SUM"), None);
}

#[test]
fn round_trips_through_display() {
    for text in ["A1", "Z9", "AA1", "AB12"] {
        let parsed = CellRef::parse(text).unwrap();
        assert_eq!(parsed.to_string(), text);
    }
}

#[test]
fn parse_trims_surrounding_white_space() {
    assert_eq!(CellRef::parse("  C3\t"), Some(CellRef::new(2, 2)));
    assert_eq!(CellRef::parse("\u{a0}D4\u{3000}"), Some(CellRef::new(3, 3)));
}

#[test]
fn parse_rejects_inner_space_and_mixed_parts() {
    assert_eq!(CellRef::parse("A 1"), None);
    assert_eq!(CellRef::parse("A1B"), None);
    assert_eq!(CellRef::parse(""), None);
    assert_eq!(CellRef::parse("A"), None);
    assert_eq!(CellRef::parse("12"), None);
}

#[test]
fn parse_accepts_leading_zeros_in_the_row() {
    assert_eq!(CellRef::parse("A007"), Some(CellRef::new(0, 6)));
}

#[test]
fn parse_row_limits() {
    assert_eq!(CellRef::parse("A4294967295"), Some(CellRef::new(0, 4294967294)));
    assert_eq!(CellRef::parse("A4294967296"), None);
}

#[test]
fn column_letters_are_bijective_base_26() {
    assert_eq!(CellRef::parse("Z1"), Some(CellRef::new(25, 0)));
    assert_eq!(CellRef::parse("AZ1"), Some(CellRef::new(51, 0)));
    assert_eq!(CellRef::parse("BA1"), Some(CellRef::new(52, 0)));
    assert_eq!(CellRef::parse("ZZ1"), Some(CellRef::new(701, 0)));
    assert_eq!(CellRef::parse("AAA1"), Some(CellRef::new(702, 0)));
    assert_eq!(CellRef::new(701, 0).to_string(), "ZZ1");
    assert_eq!(CellRef::new(702, 99).to_string(), "AAA100");
}

#[test]
fn largest_column_round_trips() {
    // MWLQKWU is the column numbered u32::MAX.
    let cell = CellRef::parse("MWLQKWU1").unwrap();
    assert_eq!(cell, CellRef::new(4294967294, 0));
    assert_eq!(cell.to_string(), "MWLQKWU1");
}

#[test]
fn new_keeps_its_fields() {
    let c = CellRef::new(3, 9);
    assert_eq!(c.col, 3);
    assert_eq!(c.row, 9);
}

#[test]
fn expands_a_column_range() {
    let cells = expand_range(CellRef::new(0, 0), CellRef::new(0, 2));
    assert_eq!(cells, vec![CellRef::new(0, 0), CellRef::new(0, 1), CellRef::new(0, 2)]);
}

#[test]
fn expands_a_rectangle_row_by_row_from_either_corner() {
    let expected = vec![
        CellRef::new(1, 1),
        CellRef::new(2, 1),
        CellRef::new(1, 2),
        CellRef::new(2, 2),
    ];
    assert_eq!(expand_range(CellRef::new(1, 1), CellRef::new(2, 2)), expected);
    assert_eq!(expand_range(CellRef::new(2, 2), CellRef::new(1, 1)), expected);
    assert_eq!(expand_range(CellRef::new(2, 1), CellRef::new(1, 2)), expected);
    assert_eq!(expand_range(CellRef::new(4, 4), CellRef::new(4, 4)), vec![CellRef::new(4, 4)]);
}

#[test]
fn try_parse_reports_column_overflow() {
    assert_eq!(CellRef::try_parse("A1"), Some(Some(CellRef::new(0, 0))));
    assert_eq!(CellRef::try_parse("A0"), Some(None));
    assert_eq!(CellRef::try_parse("MWLQKWV1"), None);
    assert_eq!(CellRef::try_parse("MWLQKWV0"), Some(None));
    assert_eq!(CellRef::try_parse(" mwlqkwu3 "), Some(Some(CellRef::new(4294967294, 2))));
}
