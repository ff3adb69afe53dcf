use cellgrid_formulas::eval::{aggregate_named, cell_is_blank, check_values, nonblank_cells, Aggregate};
use cellgrid_formulas::{CellRef, EvalError, Grid};

#[test]
fn blank_cells_are_unset_or_white_space() {
    let grid = Grid::from_csv("\"  \",x,\"\"");
    assert!(cell_is_blank(&grid, CellRef::new(0, 0)));
    assert!(!cell_is_blank(&grid, CellRef::new(1, 0)));
    assert!(cell_is_blank(&grid, CellRef::new(2, 0)));
    assert!(cell_is_blank(&grid, CellRef::new(9, 9)));
}

#[test]
fn function_names_ignore_ascii_case() {
    assert_eq!(aggregate_named("sum"), Ok(Aggregate::Sum));
    assert_eq!(aggregate_named("Count"), Ok(Aggregate::Count));
    assert_eq!(aggregate_named("AVERAGE"), Ok(Aggregate::Average));
    assert_eq!(aggregate_named("mIn"), Ok(Aggregate::Min));
    assert_eq!(aggregate_named("max"), Ok(Aggregate::Max));
}

#[test]
fn unknown_function_is_reported_in_upper_case() {
    assert_eq!(
        aggregate_named("nope"),
        Err(EvalError::UnknownFunction("NOPE".to_string()))
    );
    assert_eq!(
        aggregate_named("SUMX"),
        Err(EvalError::UnknownFunction("SUMX".to_string()))
    );
}

#[test]
fn only_average_min_and_max_need_values() {
    assert_eq!(check_values(Aggregate::Sum, 0), Ok(()));
    assert_eq!(check_values(Aggregate::Count, 0), Ok(()));
    assert_eq!(
        check_values(Aggregate::Average, 0),
        Err(EvalError::EmptyAggregate("AVERAGE".to_string()))
    );
    assert_eq!(
        check_values(Aggregate::Min, 0),
        Err(EvalError::EmptyAggregate("MIN".to_string()))
    );
    assert_eq!(
        check_values(Aggregate::Max, 0),
        Err(EvalError::EmptyAggregate("MAX".to_string()))
    );
    assert_eq!(check_values(Aggregate::Max, 2), Ok(()));
}

#[test]
fn a_range_yields_its_non_blank_cells_in_reading_order() {
    let grid = Grid::from_csv("1,,3\n , x,\n7,8,9");
    assert_eq!(
        nonblank_cells(&grid, CellRef::new(2, 2), CellRef::new(0, 0)),
        vec![
            CellRef::new(0, 0),
            CellRef::new(2, 0),
            CellRef::new(1, 1),
            CellRef::new(0, 2),
            CellRef::new(1, 2),
            CellRef::new(2, 2),
        ]
    );
    assert!(nonblank_cells(&grid, CellRef::new(5, 5), CellRef::new(6, 6)).is_empty());
}

#[test]
fn error_messages_read_as_sentences() {
    assert_eq!(
        EvalError::CircularReference(CellRef::new(1, 2)).message(),
        "circular reference at B3"
    );
    assert_eq!(EvalError::ParseError("unexpected end of input".to_string()).message(), "unexpected end of input");
    assert_eq!(EvalError::UnknownFunction("NOPE".to_string()).message(), "unknown function: NOPE");
    assert_eq!(EvalError::NotANumber("hello".to_string()).message(), "not a number: hello");
    assert_eq!(
        EvalError::RangeOutsideFunction.message(),
        "a cell range can only appear as a function argument"
    );
    assert_eq!(
        EvalError::EmptyAggregate("AVERAGE".to_string()).message(),
        "AVERAGE needs at least one value"
    );
}
