use spreadsheet::cli::cli_dimensions;
use spreadsheet::{Cell, Frontend};

#[test]
fn test_run_frontend_command_navigation_2() {

    let mut backend = Frontend::new(50, 50); // Create a backend with 50x50 grid
    backend.top_left = Cell { row: 20, col: 20 };

    // Test "w" command (move up)
    backend.run_frontend_command("w");
    assert_eq!(backend.top_left.row, 10); // 20 - MAX_WIDTH = 10

    // Test "w" command when already at the top
    backend.top_left.row = 5;
    backend.run_frontend_command("w");
    assert_eq!(backend.top_left.row, 0); // Should not go below 0

    // Test "s" command (move down)
    backend.top_left.row = 30;
    backend.run_frontend_command("s");
    assert_eq!(backend.top_left.row, 40); // 30 + MAX_WIDTH = 40

    // Test "s" command when near the bottom
    backend.top_left.row = 45;
    backend.run_frontend_command("s");
    assert_eq!(backend.top_left.row, 40); // Should not exceed rows - MAX_WIDTH

    // Test "a" command (move left)
    backend.top_left.col = 20;
    backend.run_frontend_command("a");
    assert_eq!(backend.top_left.col, 10); // 20 - MAX_WIDTH = 10

    // Test "a" command when already at the leftmost column
    backend.top_left.col = 5;
    backend.run_frontend_command("a");
    assert_eq!(backend.top_left.col, 0); // Should not go below 0

    // Test "d" command (move right)
    backend.top_left.col = 30;
    backend.run_frontend_command("d");
    assert_eq!(backend.top_left.col, 40); // 30 + MAX_WIDTH = 40

    // Test "d" command when near the rightmost column
    backend.top_left.col = 45;
    backend.run_frontend_command("d");
    assert_eq!(backend.top_left.col, 40); // Should not exceed cols - MAX_WIDTH
}

#[test]
fn test_new_frontend() {
    let frontend = Frontend::new(5, 5);
    assert_eq!(frontend.rows, 5);
    assert_eq!(frontend.cols, 5);
    assert_eq!(frontend.cell_width, 12);
    assert!(frontend.do_print);
    assert_eq!(frontend.top_left, Cell { row: 0, col: 0 });
}

#[test]
fn test_number_to_column_header() {
    assert_eq!(Frontend::number_to_column_header(0), "A");
    assert_eq!(Frontend::number_to_column_header(25), "Z");
    assert_eq!(Frontend::number_to_column_header(26), "AA");
    assert_eq!(Frontend::number_to_column_header(701), "ZZ");
}

#[test]
fn test_remove_spaces() {
    let mut input = "  Hello   World  ".to_string();
    Frontend::remove_spaces(&mut input);
    assert_eq!(input, "HelloWorld");

    let mut input = "  Rust   Programming  ".to_string();
    Frontend::remove_spaces(&mut input);
    assert_eq!(input, "RustProgramming");

    let mut input = "   ".to_string();
    Frontend::remove_spaces(&mut input);
    assert_eq!(input, "");
}

#[test]
fn test_run_frontend_command_disable_output() {
    let mut frontend = Frontend::new(5, 5);
    frontend.run_frontend_command("disable_output");
    assert!(!frontend.do_print);
}

#[test]
fn test_run_frontend_command_enable_output() {
    let mut frontend = Frontend::new(5, 5);
    frontend.run_frontend_command("disable_output");
    frontend.run_frontend_command("enable_output");
    assert!(frontend.do_print);
}

#[test]
fn test_run_frontend_command_navigation() {
    let mut frontend = Frontend::new(20, 20);

    frontend.run_frontend_command("w");
    assert_eq!(frontend.top_left.row, 0);

    frontend.run_frontend_command("s");
    assert_eq!(frontend.top_left.row, 10);

    frontend.run_frontend_command("a");
    assert_eq!(frontend.top_left.col, 0);

    frontend.run_frontend_command("d");
    assert_eq!(frontend.top_left.col, 10);
}

#[test]
fn test_run_command_set_cell_value() {
    let mut frontend = Frontend::new(5, 5);
    let result = frontend.run_command("A1=42");
    assert!(result);

    {
        let cell_data = frontend.backend.get_cell_value(0, 0);
        assert_eq!(cell_data.value, 42);
    }
}

#[test]
fn test_run_command_invalid_command() {
    let mut frontend = Frontend::new(5, 5);
    let result = frontend.run_command("invalid_command");
    assert!(!result);
}

#[test]
fn test_run_command_empty_input() {
    let mut frontend = Frontend::new(5, 5);
    let result = frontend.run_command("");
    assert!(!result);
}

#[test]
fn test_run_command_scroll_to_valid() {
    let mut frontend = Frontend::new(5, 5);
    let result = frontend.run_command("scroll_to A1");
    assert!(result);
    assert_eq!(frontend.top_left, Cell { row: 0, col: 0 });
}

#[test]
fn test_run_command_scroll_to_invalid() {
    let mut frontend = Frontend::new(5, 5);
    let result = frontend.run_command("scroll_to InvalidCell");
    assert!(!result);
}

#[test]
fn test_run_cli_invalid_rows() {
    let args = vec!["spreadsheet".to_string(), "invalid".to_string(), "20".to_string()];
    let result = cli_dimensions(&args);
    assert!(result.is_err());
    assert_eq!(result.unwrap_err(), "Invalid argument for rows: invalid");
}

#[test]
fn test_run_cli_invalid_columns() {
    let args = vec!["spreadsheet".to_string(), "10".to_string(), "invalid".to_string()];
    let result = cli_dimensions(&args);
    assert!(result.is_err());
    assert_eq!(result.unwrap_err(), "Invalid argument for columns: invalid");
}

#[test]
fn test_run_cli_out_of_bounds_rows() {
    let args = vec!["spreadsheet".to_string(), "1000".to_string(), "20".to_string()];
    let result = cli_dimensions(&args);
    assert!(result.is_err());
    assert_eq!(result.unwrap_err(), "Invalid argument for rows or columns: 1000 20");
}

#[test]
fn test_run_cli_out_of_bounds_columns() {
    let args = vec!["program_name".to_string(), "10".to_string(), "20000".to_string()];
    let result = cli_dimensions(&args);
    assert!(result.is_err());
    assert_eq!(result.unwrap_err(), "Invalid argument for rows or columns: 10 20000");
}

#[test]
fn test_run_cli_usage_error() {
    let args = vec!["program_name".to_string(), "10".to_string()];
    let result = cli_dimensions(&args);
    assert!(result.is_err());
    assert_eq!(result.unwrap_err(), "Usage: program_name [rows columns]");
}

#[test]
fn cli_dimensions_defaults_and_limits() {
    let args = vec!["program_name".to_string()];
    assert_eq!(cli_dimensions(&args), Ok((100, 100)));
    let args = vec!["p".to_string(), "999".to_string(), "18278".to_string()];
    assert_eq!(cli_dimensions(&args), Ok((999, 18278)));
    let args = vec!["p".to_string(), "0".to_string(), "5".to_string()];
    assert_eq!(cli_dimensions(&args), Err("Invalid argument for rows or columns: 0 5".to_string()));
}

#[test]
fn column_header_three_letters() {
    assert_eq!(Frontend::number_to_column_header(702), "AAA");
    assert_eq!(Frontend::number_to_column_header(18277), "ZZZ");
}

#[test]
fn remove_spaces_keeps_single_inner_space() {
    let mut input = "SUM (A1 : B2) a b".to_string();
    Frontend::remove_spaces(&mut input);
    assert_eq!(input, "SUM(A1:B2)a b");
}
