use spreadsheet::import::ImportError;
use spreadsheet::{Backend, Cell, CellError, Operand, OperandData, OperandType};
use std::time::{Duration, Instant};

/// Performs the delay the engine asked for, counted from `start`.
fn wait(start: Instant, seconds: u64) {
    let delay = Duration::from_secs(seconds);
    while start.elapsed() < delay {}
}

fn c(row: usize, col: usize) -> Cell {
    Cell { row, col }
}

#[test]
fn test_sleep_function_positive_value() {
    let mut backend = Backend::new(3, 3);
    let operand = Operand { type_: OperandType::Int, data: OperandData::Value(2) };
    let start_time = Instant::now();
    let result = backend.sleep_function(&operand);
    wait(start_time, backend.take_pending_sleep());
    let elapsed_time = start_time.elapsed();
    assert!(result.is_ok());
    assert_eq!(result.unwrap(), 2);
    assert!(elapsed_time.as_secs() >= 2);
}

#[test]
fn test_sleep_function_zero_value() {
    let mut backend = Backend::new(3, 3);
    let operand = Operand { type_: OperandType::Int, data: OperandData::Value(0) };
    let start_time = Instant::now();
    let result = backend.sleep_function(&operand);
    wait(start_time, backend.take_pending_sleep());
    let elapsed_time = start_time.elapsed();
    assert!(result.is_ok());
    assert_eq!(result.unwrap(), 0);
    assert!(elapsed_time.as_secs() < 1);
}

#[test]
fn test_sleep_function_negative_value() {
    let mut backend = Backend::new(3, 3);
    let operand = Operand { type_: OperandType::Int, data: OperandData::Value(-5) };
    let result = backend.sleep_function(&operand);
    assert!(result.is_ok());
    assert_eq!(result.unwrap(), -5);
    assert_eq!(backend.take_pending_sleep(), 0);
}

#[test]
fn sleep_of_errored_cell_asks_no_delay() {
    let mut b = Backend::new(2, 2);
    b.set_cell_value(c(0, 0), "1/0").unwrap();
    let operand = Operand { type_: OperandType::Cell, data: OperandData::Cell(c(0, 0)) };
    assert_eq!(b.sleep_function(&operand), Err(CellError::DivideByZero));
    assert_eq!(b.take_pending_sleep(), 0);
}

#[test]
fn cycle_check_sees_a_cycle() {
    let mut b = Backend::new(2, 2);
    let mut snap = b.create_snapshot();
    snap[0][0].dependents = vec![(0, 1)];
    snap[0][1].dependents = vec![(0, 0)];
    b.apply_snapshot(snap);
    assert!(b.check_circular_dependency(&c(0, 0)));
    assert!(b.is_in_cycle(&c(0, 1)));
    assert!(!b.is_in_cycle(&c(1, 1)));
}

#[test]
fn checked_reader_answers_none_outside() {
    let mut b = Backend::new(2, 3);
    b.set_cell_value(c(1, 2), "7").unwrap();
    assert_eq!(b.cell_value_at(c(1, 2)), Some((7, CellError::NoError)));
    assert_eq!(b.cell_value_at(c(2, 0)), None);
    assert_eq!(b.cell_value_at(c(0, 3)), None);
}

#[test]
fn dependents_listed_once_and_rejected_edit_keeps_them() {
    let mut b = Backend::new(3, 3);
    b.set_cell_value(c(0, 0), "10").unwrap();
    b.set_cell_value(c(0, 1), "A1*2").unwrap();
    assert_eq!(b.set_cell_value(c(0, 0), "B1"), Err(spreadsheet::ExpressionError::CircularDependency));
    assert_eq!(b.get_cell_value(0, 0).dependents, vec![(0, 1)]);
    assert!(!b.get_cell_value(0, 1).dependents.contains(&(0, 0)));
    assert_eq!(b.get_cell_value(0, 1).value, 20);
    b.set_cell_value(c(1, 1), "A1+A1").unwrap();
    assert_eq!(b.get_cell_value(0, 0).dependents, vec![(0, 1), (1, 1)]);
    assert_eq!(b.get_cell_dependencies(1, 1).0, vec![(0, 0), (0, 0)]);
    assert_eq!(b.get_cell_value(1, 1).value, 20);
}

#[test]
fn checked_import_stops_at_rejected_field() {
    let mut b = Backend::new(1, 1);
    assert_eq!(b.load_csv_checked("1,2\nA9,3\n"), Err(ImportError::RejectedField));
    let mut b = Backend::new(1, 1);
    assert_eq!(b.load_csv_checked("1,A1\n3,4\n"), Ok(()));
    assert_eq!(b.get_cell_value(0, 1).value, 1);
    let mut b = Backend::new(1, 1);
    assert_eq!(b.load_csv_from_str("1,2\nA9,3\n"), Ok(()));
    assert_eq!(b.get_cell_value(1, 0).value, 0);
}

#[test]
fn import_trims_unicode_whitespace() {
    let mut b = Backend::new(1, 1);
    assert_eq!(b.load_csv_from_str("\u{3000}5\u{a0},\t6 \n"), Ok(()));
    assert_eq!(b.export_values(), vec![vec![5, 6]]);
}

#[test]
fn series_detection_and_fill() {
    let mut b = Backend::new(6, 2);
    for (r, v) in ["10", "7", "4"].iter().enumerate() {
        b.set_cell_value(c(r, 0), v).unwrap();
        b.set_cell_value(c(r, 1), "5").unwrap();
    }
    assert_eq!(b.constant_series(c(0, 1), c(2, 1)), Some(5));
    assert_eq!(b.constant_series(c(0, 0), c(2, 1)), None);
    assert_eq!(b.arithmetic_series(c(0, 0), c(2, 0)), Some(3));
    assert_eq!(b.arithmetic_series(c(0, 0), c(2, 1)), None);
    b.fill_series(c(2, 0), c(5, 0), 3);
    assert_eq!(b.export_values().iter().map(|r| r[0]).collect::<Vec<i32>>(), vec![10, 7, 4, 1, -2, -5]);
}
