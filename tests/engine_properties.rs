use spreadsheet::import::ImportError;
use spreadsheet::{Backend, Cell, CellData, CellError, ExpressionError, FunctionData, VecWrapper};

fn c(row: usize, col: usize) -> Cell {
    Cell { row, col }
}

fn value(b: &Backend, row: usize, col: usize) -> (i32, CellError) {
    let d = b.get_cell_value(row, col);
    (d.value, d.error)
}

fn same_record(a: &CellData, b: &CellData) -> bool {
    a.value == b.value
        && a.error == b.error
        && a.function == b.function
        && a.dependents == b.dependents
        && a.dirty_parents == b.dirty_parents
}

fn same_grid(a: &Backend, b: &Backend) -> bool {
    let (rows, cols) = a.get_rows_col();
    for r in 0..rows {
        for k in 0..cols {
            if !same_record(a.get_cell_value(r, k), b.get_cell_value(r, k)) {
                return false;
            }
        }
    }
    true
}

#[test]
fn constant_always_succeeds() {
    let mut b = Backend::new(3, 4);
    for r in 0..3 {
        for k in 0..4 {
            let v = (r * 4 + k) as i32 - 5;
            assert_eq!(b.set_cell_value(c(r, k), &v.to_string()), Ok(()));
            assert_eq!(value(&b, r, k), (v, CellError::NoError));
        }
    }
}

#[test]
fn self_reference_rejected_without_change() {
    let mut b = Backend::new(3, 3);
    b.set_cell_value(c(1, 0), "4").unwrap();
    b.set_cell_value(c(0, 0), "A2*3").unwrap();
    let before = b.create_snapshot();
    let mut twin = Backend::new(3, 3);
    twin.apply_snapshot(b.create_snapshot());
    for text in ["A1+1", "SUM(A1:B2)", "SLEEP(A1)", "A1"] {
        assert_eq!(b.set_cell_value(c(0, 0), text), Err(ExpressionError::CircularDependency));
        assert!(same_grid(&b, &twin));
    }
    assert_eq!(before.len(), 3);
}

#[test]
fn cycle_rejected_and_value_kept() {
    let mut b = Backend::new(3, 3);
    b.set_cell_value(c(0, 0), "10").unwrap();
    assert_eq!(b.set_cell_value(c(0, 1), "=A1*2"), Ok(()));
    assert_eq!(value(&b, 0, 1), (20, CellError::NoError));
    assert_eq!(b.set_cell_value(c(0, 0), "=B1"), Err(ExpressionError::CircularDependency));
    assert_eq!(value(&b, 0, 0), (10, CellError::NoError));
    assert!(!b.check_circular_dependency(&c(0, 0)));
}

#[test]
fn longer_cycle_rejected() {
    let mut b = Backend::new(3, 3);
    b.set_cell_value(c(0, 0), "B1").unwrap();
    b.set_cell_value(c(0, 1), "C1+1").unwrap();
    assert_eq!(b.set_cell_value(c(0, 2), "MAX(A1:A3)"), Err(ExpressionError::CircularDependency));
    assert_eq!(b.set_cell_value(c(0, 2), "MAX(A2:A3)"), Ok(()));
}

#[test]
fn division_error_propagates_exactly() {
    let mut b = Backend::new(3, 3);
    b.set_cell_value(c(0, 0), "=5/0").unwrap();
    assert_eq!(value(&b, 0, 0), (0, CellError::DivideByZero));
    b.set_cell_value(c(0, 1), "=SUM(A1:A1)").unwrap();
    assert_eq!(value(&b, 0, 1), (0, CellError::DivideByZero));
    b.set_cell_value(c(0, 2), "B1+1").unwrap();
    assert_eq!(value(&b, 0, 2), (0, CellError::DivideByZero));
    b.set_cell_value(c(0, 0), "6").unwrap();
    assert_eq!(value(&b, 0, 1), (6, CellError::NoError));
    assert_eq!(value(&b, 0, 2), (7, CellError::NoError));
}

#[test]
fn diamond_recomputes_each_once() {
    let mut b = Backend::new(2, 4);
    b.set_cell_value(c(0, 0), "1").unwrap();
    b.set_cell_value(c(0, 1), "SLEEP(A1)").unwrap();
    b.set_cell_value(c(0, 2), "A1").unwrap();
    b.set_cell_value(c(0, 3), "B1+C1").unwrap();
    assert_eq!(value(&b, 0, 3), (2, CellError::NoError));
    b.take_pending_sleep();
    b.set_cell_value(c(0, 0), "5").unwrap();
    assert_eq!(b.take_pending_sleep(), 5);
    assert_eq!(value(&b, 0, 1), (5, CellError::NoError));
    assert_eq!(value(&b, 0, 2), (5, CellError::NoError));
    assert_eq!(value(&b, 0, 3), (10, CellError::NoError));
}

#[test]
fn aggregates_over_three_values() {
    let mut b = Backend::new(2, 3);
    b.set_cell_value(c(0, 0), "10").unwrap();
    b.set_cell_value(c(0, 1), "20").unwrap();
    b.set_cell_value(c(0, 2), "5").unwrap();
    for (text, expected) in [("MIN(A1:C1)", 5), ("MAX(A1:C1)", 20), ("SUM(A1:C1)", 35), ("AVG(A1:C1)", 11)] {
        b.set_cell_value(c(1, 0), text).unwrap();
        assert_eq!(value(&b, 1, 0), (expected, CellError::NoError));
    }
}

#[test]
fn stdev_rounds_half_up() {
    let mut b = Backend::new(2, 4);
    for (k, v) in ["0", "0", "0", "1"].iter().enumerate() {
        b.set_cell_value(c(0, k), v).unwrap();
    }
    b.set_cell_value(c(1, 0), "STDEV(A1:D1)").unwrap();
    assert_eq!(value(&b, 1, 0), (1, CellError::NoError));
    b.set_cell_value(c(0, 3), "0").unwrap();
    assert_eq!(value(&b, 1, 0), (0, CellError::NoError));
    b.set_cell_value(c(0, 0), "-4").unwrap();
    b.set_cell_value(c(0, 1), "4").unwrap();
    assert_eq!(value(&b, 1, 0), (3, CellError::NoError));
}

#[test]
fn snapshot_round_trip() {
    let mut b = Backend::new(3, 3);
    b.set_cell_value(c(0, 0), "7").unwrap();
    b.set_cell_value(c(1, 1), "A1*A1").unwrap();
    b.set_cell_value(c(2, 2), "SUM(A1:B2)").unwrap();
    let mut copy = Backend::new(3, 3);
    copy.apply_snapshot(b.create_snapshot());
    let snap = b.create_snapshot();
    b.apply_snapshot(snap);
    assert!(same_grid(&b, &copy));
    assert_eq!(value(&b, 2, 2), (56, CellError::NoError));
}

#[test]
fn multiplication_overflow_detected() {
    let mut b = Backend::new(2, 2);
    b.set_cell_value(c(0, 0), "2147483647*2").unwrap();
    assert_eq!(value(&b, 0, 0), (0, CellError::Overflow));
    b.set_cell_value(c(0, 1), "-65536").unwrap();
    b.set_cell_value(c(1, 0), "B1*32768").unwrap();
    assert_eq!(value(&b, 1, 0), (i32::MIN, CellError::NoError));
}

#[test]
fn sum_overflow_and_wrapping_plus() {
    let mut b = Backend::new(2, 2);
    b.set_cell_value(c(0, 0), "2147483647").unwrap();
    b.set_cell_value(c(0, 1), "1").unwrap();
    b.set_cell_value(c(1, 0), "SUM(A1:B1)").unwrap();
    assert_eq!(value(&b, 1, 0), (0, CellError::Overflow));
    b.set_cell_value(c(1, 1), "A1+B1").unwrap();
    assert_eq!(value(&b, 1, 1), (i32::MIN, CellError::NoError));
}

#[test]
fn division_truncates_and_min_by_minus_one_overflows() {
    let mut b = Backend::new(2, 2);
    b.set_cell_value(c(0, 0), "-7").unwrap();
    b.set_cell_value(c(0, 1), "2").unwrap();
    b.set_cell_value(c(1, 0), "A1/B1").unwrap();
    assert_eq!(value(&b, 1, 0), (-3, CellError::NoError));
    b.set_cell_value(c(0, 0), "-2147483648").unwrap();
    b.set_cell_value(c(0, 1), "-1").unwrap();
    assert_eq!(value(&b, 1, 0), (0, CellError::Overflow));
}

#[test]
fn unparsable_text_rejected() {
    let mut b = Backend::new(3, 3);
    for text in ["", "=", "Invalid", "SUM(B2:A1)", "A4", "D1", "SUM(A1:A4)", "1+", "-"] {
        assert_eq!(b.set_cell_value(c(0, 0), text), Err(ExpressionError::CouldNotParse));
    }
    assert_eq!(value(&b, 0, 0), (0, CellError::NoError));
}

#[test]
fn dependencies_listed_both_ways() {
    let mut b = Backend::new(3, 3);
    b.set_cell_value(c(2, 2), "SUM(A1:B2)").unwrap();
    let (parents, children) = b.get_cell_dependencies(2, 2);
    assert_eq!(parents, vec![(0, 0), (0, 1), (1, 0), (1, 1)]);
    assert!(children.is_empty());
    let (parents, children) = b.get_cell_dependencies(1, 1);
    assert!(parents.is_empty());
    assert_eq!(children, vec![(2, 2)]);
    b.set_cell_value(c(2, 2), "3").unwrap();
    assert!(b.get_cell_dependencies(1, 1).1.is_empty());
}

#[test]
fn reset_restores_fresh_cells() {
    let mut b = Backend::new(2, 2);
    b.set_cell_value(c(0, 0), "3").unwrap();
    b.set_cell_value(c(1, 1), "A1").unwrap();
    b.reset();
    assert_eq!(b.get_rows_col(), (2, 2));
    assert_eq!(value(&b, 0, 0), (0, CellError::NoError));
    assert!(b.get_cell_value(0, 0).dependents.is_empty());
    assert_eq!(b.get_cell_value(1, 1).function.data, FunctionData::Value(0));
}

#[test]
fn csv_import_resizes_and_trims() {
    let mut b = Backend::new(1, 1);
    assert_eq!(b.load_csv_from_str(" 1 ,2\n3,A1+B1\n"), Ok(()));
    assert_eq!(b.get_rows_col(), (2, 2));
    assert_eq!(value(&b, 0, 0), (1, CellError::NoError));
    assert_eq!(value(&b, 1, 1), (3, CellError::NoError));
    assert_eq!(b.export_values(), vec![vec![1, 2], vec![3, 3]]);
}

#[test]
fn csv_import_rejects_ragged_rows() {
    let mut b = Backend::new(1, 1);
    b.set_cell_value(c(0, 0), "9").unwrap();
    assert_eq!(b.load_csv_from_str("1,2\n3\n"), Err(ImportError::Malformed));
    assert_eq!(b.get_rows_col(), (1, 1));
    assert_eq!(value(&b, 0, 0), (9, CellError::NoError));
}

#[test]
fn stack_is_last_in_first_out() {
    let mut s: VecWrapper<i32> = VecWrapper::new();
    assert_eq!(s.pop(), None);
    for i in 0..20 {
        s.push(i);
    }
    assert_eq!(s.len(), 20);
    for i in (0..20).rev() {
        assert_eq!(s.pop(), Some(i));
    }
    assert_eq!(s.pop(), None);
}

#[test]
fn cycle_query_on_grid() {
    let mut b = Backend::new(2, 2);
    b.set_cell_value(c(0, 1), "A1").unwrap();
    b.set_cell_value(c(1, 1), "B1+A1").unwrap();
    assert!(!b.check_circular_dependency(&c(0, 0)));
    b.reset_found(&c(0, 0));
    assert_eq!(b.get_cell_value(1, 1).dirty_parents, 0);
    assert_eq!(b.get_cell_value(0, 0).dependents, vec![(0, 1), (1, 1)]);
}
