use spreadsheet::parser::CommandError;
use spreadsheet::{Backend, Cell, CellError, Frontend};

fn c(row: usize, col: usize) -> Cell {
    Cell { row, col }
}

fn value(b: &Backend, row: usize, col: usize) -> (i32, CellError) {
    let d = b.get_cell_value(row, col);
    (d.value, d.error)
}

#[test]
fn load_and_save_names() {
    assert_eq!(Backend::parse_load_or_save_cmd("load(data.csv)"), Some("data.csv".to_string()));
    assert_eq!(Backend::parse_load_or_save_cmd("save(out.csv)tail"), Some("out.csv".to_string()));
    assert_eq!(Backend::parse_load_or_save_cmd("load()"), None);
    assert_eq!(Backend::parse_load_or_save_cmd("load(x"), None);
}

#[test]
fn range_commands_parse() {
    let b = Backend::new(10, 10);
    assert_eq!(b.parse_cut_or_copy("copy(A1:B2)"), Ok((c(0, 0), c(1, 1))));
    assert_eq!(b.parse_cut_or_copy("cut(C3:C4)"), Ok((c(2, 2), c(3, 2))));
    assert_eq!(b.parse_cut_or_copy("cut(C3C4)"), Err(CommandError::InvalidCommand));
    assert_eq!(b.parse_cut_or_copy("cut(C3:K4)"), Err(CommandError::InvalidCellReference));
    assert_eq!(b.parse_paste("paste(J10)"), Ok(c(9, 9)));
    assert_eq!(b.parse_paste("paste(J11)"), Err(CommandError::InvalidCellReference));
    assert_eq!(b.parse_paste("paste(J1"), Err(CommandError::InvalidCommand));
    assert_eq!(b.parse_autofill("autofill(A1:A3,A9)"), Ok((c(0, 0), c(2, 0), c(8, 0))));
    assert_eq!(b.parse_autofill("autofill(A1:A3)"), Err(CommandError::InvalidCommand));
    assert_eq!(b.parse_sort("sorta(B1:B5)"), Ok((c(0, 1), c(4, 1), true)));
    assert_eq!(b.parse_sort("sortd(B1:B5)"), Ok((c(0, 1), c(4, 1), false)));
    assert_eq!(b.parse_sort("sortd(B1:C5)"), Err(CommandError::InvalidRange));
    assert_eq!(b.parse_sort("sortx(B1:B5)"), Err(CommandError::InvalidCommand));
}

#[test]
fn copy_then_paste_values() {
    let mut b = Backend::new(4, 4);
    b.set_cell_value(c(0, 0), "3").unwrap();
    b.set_cell_value(c(0, 1), "-4").unwrap();
    b.set_cell_value(c(1, 0), "A1*A1").unwrap();
    b.set_cell_value(c(1, 1), "A2+B1").unwrap();
    assert_eq!(b.copy("copy(A1:B2)"), Ok(()));
    assert_eq!(b.paste("paste(C3)"), Ok(()));
    assert_eq!(value(&b, 2, 2), (3, CellError::NoError));
    assert_eq!(value(&b, 2, 3), (-4, CellError::NoError));
    assert_eq!(value(&b, 3, 2), (9, CellError::NoError));
    assert_eq!(value(&b, 3, 3), (5, CellError::NoError));
    assert!(b.get_cell_dependencies(3, 3).0.is_empty());
    assert_eq!(b.paste("paste(D4)"), Err(CommandError::PasteOutOfGrid));
}

#[test]
fn cut_clears_source() {
    let mut b = Backend::new(3, 3);
    b.set_cell_value(c(0, 0), "8").unwrap();
    b.set_cell_value(c(2, 2), "A1+1").unwrap();
    assert_eq!(b.cut("cut(A1:A1)"), Ok(()));
    assert_eq!(value(&b, 0, 0), (0, CellError::NoError));
    assert_eq!(value(&b, 2, 2), (1, CellError::NoError));
    assert_eq!(b.paste("paste(B2)"), Ok(()));
    assert_eq!(value(&b, 1, 1), (8, CellError::NoError));
}

#[test]
fn copy_of_reversed_range_leaves_nothing_to_paste() {
    let mut b = Backend::new(3, 3);
    assert_eq!(b.copy("copy(B2:A1)"), Ok(()));
    assert_eq!(b.paste("paste(A1)"), Err(CommandError::NothingToPaste));
}

#[test]
fn undo_and_redo_restore_states() {
    let mut b = Backend::new(2, 2);
    b.set_cell_value(c(0, 0), "1").unwrap();
    b.push_undo_state();
    b.set_cell_value(c(0, 1), "A1+1").unwrap();
    b.set_cell_value(c(0, 0), "5").unwrap();
    assert_eq!(value(&b, 0, 1), (6, CellError::NoError));
    b.undo_callback();
    assert_eq!(value(&b, 0, 0), (1, CellError::NoError));
    assert_eq!(value(&b, 0, 1), (0, CellError::NoError));
    assert!(b.get_cell_value(0, 0).dependents.is_empty());
    b.redo_callback();
    assert_eq!(value(&b, 0, 1), (6, CellError::NoError));
    assert_eq!(b.get_cell_value(0, 0).dependents, vec![(0, 1)]);
    b.redo_callback();
    assert_eq!(value(&b, 0, 0), (5, CellError::NoError));
}

#[test]
fn frontend_dispatches_clipboard_and_history() {
    let mut f = Frontend::new(5, 5);
    assert!(f.run_command("A1=7"));
    assert!(f.run_command("copy(A1:A1)"));
    assert!(f.run_command("paste(B2)"));
    assert_eq!(f.backend.get_cell_value(1, 1).value, 7);
    assert!(f.run_command("undo"));
    assert_eq!(f.backend.get_cell_value(1, 1).value, 0);
    assert!(f.run_command("redo"));
    assert_eq!(f.backend.get_cell_value(1, 1).value, 7);
    assert!(!f.run_command("paste(F6)"));
}
