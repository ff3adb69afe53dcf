use cellgrid_formulas::grid::parse_csv;
use cellgrid_formulas::{CellRef, Grid};

#[test]
fn reads_values_from_a_buffer() {
    let data = "1,2,3\n=SUM(A1:C1),,\n";
    let grid = Grid::from_reader(data.as_bytes()).unwrap();
    assert_eq!(grid.get(CellRef::new(0, 0)), Some("1"));
    assert_eq!(grid.get(CellRef::new(2, 0)), Some("3"));
    assert_eq!(grid.get(CellRef::new(0, 1)), Some("=SUM(A1:C1)"));
}

#[test]
fn skips_blank_cells() {
    let grid = Grid::from_reader("a,,c".as_bytes()).unwrap();
    assert_eq!(grid.len(), 2);
    assert_eq!(grid.get(CellRef::new(1, 0)), None);
}

#[test]
fn recognizes_formula_cells() {
    let grid = Grid::from_reader("=A1+1,42".as_bytes()).unwrap();
    assert!(grid.is_formula(CellRef::new(0, 0)));
    assert!(!grid.is_formula(CellRef::new(1, 0)));
}

#[test]
fn quoted_field_can_contain_a_comma() {
    let grid = Grid::from_reader("\"Smith, John\",42".as_bytes()).unwrap();
    assert_eq!(grid.get(CellRef::new(0, 0)), Some("Smith, John"));
    assert_eq!(grid.get(CellRef::new(1, 0)), Some("42"));
}

#[test]
fn doubled_quote_is_a_literal_quote() {
    let grid = Grid::from_reader("\"she said \"\"hi\"\"\"".as_bytes()).unwrap();
    assert_eq!(grid.get(CellRef::new(0, 0)), Some("she said \"hi\""));
}

#[test]
fn quoted_field_can_contain_a_newline() {
    let grid = Grid::from_reader("\"line1\nline2\",b\nc,d".as_bytes()).unwrap();
    assert_eq!(grid.get(CellRef::new(0, 0)), Some("line1\nline2"));
    assert_eq!(grid.get(CellRef::new(1, 0)), Some("b"));
    assert_eq!(grid.get(CellRef::new(0, 1)), Some("c"));
    assert_eq!(grid.get(CellRef::new(1, 1)), Some("d"));
}

#[test]
fn quoted_field_is_not_trimmed() {
    let grid = Grid::from_reader("\"  padded  \",unquoted  ".as_bytes()).unwrap();
    assert_eq!(grid.get(CellRef::new(0, 0)), Some("  padded  "));
    assert_eq!(grid.get(CellRef::new(1, 0)), Some("unquoted"));
}

#[test]
fn handles_crlf_line_endings() {
    let grid = Grid::from_reader("1,2\r\n3,4\r\n".as_bytes()).unwrap();
    assert_eq!(grid.get(CellRef::new(1, 0)), Some("2"));
    assert_eq!(grid.get(CellRef::new(0, 1)), Some("3"));
    assert_eq!(grid.len(), 4);
}

#[test]
fn rejects_bytes_that_are_not_utf8() {
    assert!(Grid::from_reader(&[b'a', 0xff, b'b'][..]).is_err());
    assert!(Grid::from_reader(&[0xe2, 0x82][..]).is_err());
}

#[test]
fn from_csv_reads_text() {
    let grid = Grid::from_csv("x, y \n");
    assert_eq!(grid.get(CellRef::new(0, 0)), Some("x"));
    assert_eq!(grid.get(CellRef::new(1, 0)), Some("y"));
    assert_eq!(grid.len(), 2);
}

#[test]
fn a_lone_carriage_return_ends_a_row() {
    let grid = Grid::from_csv("a\rb");
    assert_eq!(grid.get(CellRef::new(0, 0)), Some("a"));
    assert_eq!(grid.get(CellRef::new(0, 1)), Some("b"));
}

#[test]
fn quote_inside_an_unquoted_field_is_literal() {
    let grid = Grid::from_csv("ab\"c,\"x\"y");
    assert_eq!(grid.get(CellRef::new(0, 0)), Some("ab\"c"));
    assert_eq!(grid.get(CellRef::new(1, 0)), Some("xy"));
}

#[test]
fn set_then_get_and_overwrite() {
    let mut grid = Grid::new();
    assert!(grid.is_empty());
    grid.set(CellRef::new(3, 4), "hello".to_string());
    assert_eq!(grid.get(CellRef::new(3, 4)), Some("hello"));
    assert_eq!(grid.get(CellRef::new(4, 3)), None);
    grid.set(CellRef::new(3, 4), "=B2".to_string());
    assert_eq!(grid.get(CellRef::new(3, 4)), Some("=B2"));
    assert!(grid.is_formula(CellRef::new(3, 4)));
    assert_eq!(grid.len(), 1);
    assert!(!grid.is_empty());
}

#[test]
fn cells_far_apart_do_not_collide() {
    let mut grid = Grid::new();
    grid.set(CellRef::new(u32::MAX, 0), "a".to_string());
    grid.set(CellRef::new(0, u32::MAX), "b".to_string());
    grid.set(CellRef::new(1, 0), "c".to_string());
    assert_eq!(grid.get(CellRef::new(u32::MAX, 0)), Some("a"));
    assert_eq!(grid.get(CellRef::new(0, u32::MAX)), Some("b"));
    assert_eq!(grid.get(CellRef::new(1, 0)), Some("c"));
    assert_eq!(grid.len(), 3);
}

#[test]
fn parse_csv_gives_rows_of_fields() {
    let rows = parse_csv(" a ,\"b,c\" \n\n\"\"");
    assert_eq!(
        rows,
        vec![
            vec!["a".to_string(), "b,c ".to_string()],
            vec!["".to_string()],
            vec!["".to_string()],
        ]
    );
}

#[test]
fn parse_csv_of_nothing_is_no_rows() {
    let rows = parse_csv("");
    assert!(rows.is_empty());
}

#[test]
fn len_grows_only_for_new_cells() {
    let mut grid = Grid::new();
    grid.set(CellRef::new(0, 0), "a".to_string());
    assert_eq!(grid.len(), 1);
    grid.set(CellRef::new(0, 0), "b".to_string());
    assert_eq!(grid.len(), 1);
    grid.set(CellRef::new(0, 1), "c".to_string());
    assert_eq!(grid.len(), 2);
}

#[test]
fn a_value_survives_later_sets_elsewhere() {
    let mut grid = Grid::new();
    grid.set(CellRef::new(2, 2), "kept".to_string());
    for i in 0..5 {
        grid.set(CellRef::new(i, 0), format!("v{i}"));
        grid.set(CellRef::new(2, 3 + i), "w".to_string());
    }
    assert_eq!(grid.get(CellRef::new(2, 2)), Some("kept"));
}

#[test]
fn fully_quoted_csv_reads_back_its_fields() {
    let rows = vec![
        vec![" a, b ".to_string(), "say \"hi\"".to_string()],
        vec!["line1\nline2\r".to_string()],
        vec!["".to_string(), "\"".to_string()],
    ];
    let text = rows
        .iter()
        .map(|r| {
            r.iter()
                .map(|f| format!("\"{}\"", f.replace('"', "\"\"")))
                .collect::<Vec<_>>()
                .join(",")
        })
        .collect::<Vec<_>>()
        .join("\n");
    assert_eq!(parse_csv(&text), rows);
}

#[test]
fn quote_free_csv_is_lines_split_on_commas() {
    let text = " a , b\r\n\nc,,d \n x";
    let expected: Vec<Vec<String>> = text
        .lines()
        .map(|l| l.split(',').map(|f| f.trim().to_string()).collect())
        .collect();
    assert_eq!(parse_csv(text), expected);
    assert_eq!(parse_csv("a,b\n"), vec![vec!["a".to_string(), "b".to_string()]]);
}
