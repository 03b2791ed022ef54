use spreadsheet::{
    Backend, BinaryOp, Cell, CellError, ExpressionError, Function, FunctionData, FunctionType,
    Operand, OperandData, OperandType, RangeFunction,
};

#[test]
fn test_new_backend() {
    let backend = Backend::new(5, 5);
    assert_eq!(backend.get_rows_col(), (5, 5));

    let backend = Backend::new(0, 0);
    assert_eq!(backend.get_rows_col(), (0, 0));

    let backend = Backend::new(100, 100);
    assert_eq!(backend.get_rows_col(), (100, 100));
}

#[test]
fn test_get_rows_col() {
    let backend = Backend::new(3, 4);
    assert_eq!(backend.get_rows_col(), (3, 4));

    let backend = Backend::new(1, 1);
    assert_eq!(backend.get_rows_col(), (1, 1));
}

#[test]
fn test_set_and_get_cell_value() {
    let mut backend = Backend::new(3, 3);
    let cell = Cell { row: 1, col: 1 };
    let expression = "42";
    backend.set_cell_value(cell, expression).unwrap();

    {
        let cell_data = backend.get_cell_value(1, 1);
        assert_eq!(cell_data.value, 42);
    }
}

#[test]
fn test_set_cell_value_constant() {
    let mut backend = Backend::new(3, 3);
    let cell = Cell { row: 1, col: 1 };
    backend.set_cell_value(cell, "42").unwrap();

    {
        let cell_data = backend.get_cell_value(1, 1);
        assert_eq!(cell_data.value, 42);
        assert_eq!(cell_data.error, CellError::NoError);
    }
}

#[test]
fn test_set_cell_value_circular_dependency() {
    let mut backend = Backend::new(3, 3);
    let cell = Cell { row: 0, col: 0 };

    let result = backend.set_cell_value(cell, "A1");
    assert!(result.is_err());
    assert_eq!(result.unwrap_err(), ExpressionError::CircularDependency);
}
#[test]
fn test_update_graph_remove_dependencies() {
    let mut backend = Backend::new(3, 3);
    let cell = Cell { row: 0, col: 0 };
    backend.set_cell_value(cell, "B1").unwrap();

    let old_function = Function::new_constant(5);
    backend.update_graph(&cell, &old_function);

    {
        let cell_data = backend.get_cell_value(0, 0);
        assert_eq!(cell_data.value, 0); // Old dependencies removed
    }
}

#[test]
fn test_update_graph_add_dependencies() {
    let mut backend = Backend::new(3, 3);
    let cell = Cell { row: 0, col: 0 };
    backend.set_cell_value(cell, "B1").unwrap();

    {
        let cell_data = backend.get_cell_value(0, 1);
        assert_eq!(cell_data.dependents.len(), 1); // New dependencies added
    }
}

#[test]
fn test_min_function() {
    let mut backend = Backend::new(3, 3);
    backend
        .set_cell_value(Cell { row: 0, col: 0 }, "10")
        .unwrap();
    backend
        .set_cell_value(Cell { row: 0, col: 1 }, "20")
        .unwrap();
    backend
        .set_cell_value(Cell { row: 0, col: 2 }, "5")
        .unwrap();

    let range = RangeFunction {
        top_left: Cell { row: 0, col: 0 },
        bottom_right: Cell { row: 0, col: 2 },
    };
    let result = backend.min_function(&range).unwrap();
    assert_eq!(result, 5);
}

#[test]
fn test_reset_found() {
    let mut backend = Backend::new(3, 3);
    let start = Cell { row: 1, col: 1 };
    backend.set_cell_value(start, "10").unwrap();

    backend.reset_found(&start);

    {
        let cell_data = backend.get_cell_value(1, 1);
        assert_eq!(cell_data.dirty_parents, 0);
    }
}

#[test]
fn test_check_circular_dependency() {
    let mut backend = Backend::new(3, 3);
    let cell_a = Cell { row: 0, col: 0 };
    let cell_b = Cell { row: 0, col: 1 };

    let _res1 = backend.set_cell_value(cell_a, "=B1");
    let res = backend.set_cell_value(cell_b, "=A1");

    assert!(res.is_err());
}

#[test]
fn test_multiply_op_overflow() {
    let backend = Backend::new(3, 3);

    // Set up operands that will cause overflow
    let bin_op = BinaryOp {
        first: Operand {
            type_: OperandType::Int,
            data: OperandData::Value(2_147_483_647), // Maximum i32 value
        },
        second: Operand {
            type_: OperandType::Int,
            data: OperandData::Value(2), // Multiplying by 2 will overflow
        },
    };

    let result = backend.multiply_op(&bin_op);
    assert!(result.is_err());
    assert_eq!(result.unwrap_err(), CellError::Overflow);
}

#[test]
fn test_divide_op_by_zero() {
    let backend = Backend::new(3, 3);

    // Set up operands where the second operand is zero
    let bin_op = BinaryOp {
        first: Operand {
            type_: OperandType::Int,
            data: OperandData::Value(42),
        },
        second: Operand {
            type_: OperandType::Int,
            data: OperandData::Value(0), // Division by zero
        },
    };

    let result = backend.divide_op(&bin_op);
    assert!(result.is_err());
    assert_eq!(result.unwrap_err(), CellError::DivideByZero);
}

#[test]
fn test_update_dependents() {
    let mut backend = Backend::new(3, 3);
    let cell = Cell { row: 0, col: 0 };
    backend.set_cell_value(cell, "10").unwrap();

    backend.update_dependents(&cell);

    {
        let cell_data = backend.get_cell_value(0, 0);
        assert_eq!(cell_data.value, 10);
    }
}

#[test]
fn test_evaluate_expression_binary_op() {
    let backend = Backend::new(3, 3);
    let func = Function::new_binary_op(
        FunctionType::Plus,
        BinaryOp {
            first: Operand {
                type_: OperandType::Int,
                data: OperandData::Value(10),
            },
            second: Operand {
                type_: OperandType::Int,
                data: OperandData::Value(20),
            },
        },
    );

    let (value, error) = backend.evaluate_expression(&func);
    assert_eq!(value, 30);
    assert_eq!(error, CellError::NoError);
}

#[test]
fn test_max_function() {
    let mut backend = Backend::new(3, 3);
    backend
        .set_cell_value(Cell { row: 0, col: 0 }, "10")
        .unwrap();
    backend
        .set_cell_value(Cell { row: 0, col: 1 }, "20")
        .unwrap();
    backend
        .set_cell_value(Cell { row: 0, col: 2 }, "5")
        .unwrap();

    let range = RangeFunction {
        top_left: Cell { row: 0, col: 0 },
        bottom_right: Cell { row: 0, col: 2 },
    };
    let result = backend.max_function(&range).unwrap();
    assert_eq!(result, 20);

    // Test with negative values
    backend
        .set_cell_value(Cell { row: 1, col: 0 }, "-10")
        .unwrap();
    backend
        .set_cell_value(Cell { row: 1, col: 1 }, "-20")
        .unwrap();
    let range = RangeFunction {
        top_left: Cell { row: 1, col: 0 },
        bottom_right: Cell { row: 1, col: 1 },
    };
    let result = backend.max_function(&range).unwrap();
    assert_eq!(result, -10);
}

#[test]
fn test_avg_function() {
    let mut backend = Backend::new(3, 3);
    backend
        .set_cell_value(Cell { row: 0, col: 0 }, "10")
        .unwrap();
    backend
        .set_cell_value(Cell { row: 0, col: 1 }, "20")
        .unwrap();
    backend
        .set_cell_value(Cell { row: 0, col: 2 }, "30")
        .unwrap();

    let range = RangeFunction {
        top_left: Cell { row: 0, col: 0 },
        bottom_right: Cell { row: 0, col: 2 },
    };
    let result = backend.avg_function(&range).unwrap();
    assert_eq!(result, 20);

    // Test with zero values
    backend
        .set_cell_value(Cell { row: 1, col: 0 }, "0")
        .unwrap();
    backend
        .set_cell_value(Cell { row: 1, col: 1 }, "0")
        .unwrap();
    let range = RangeFunction {
        top_left: Cell { row: 1, col: 0 },
        bottom_right: Cell { row: 1, col: 1 },
    };
    let result = backend.avg_function(&range).unwrap();
    assert_eq!(result, 0);
}

#[test]
fn test_sum_function() {
    let mut backend = Backend::new(3, 3);
    backend
        .set_cell_value(Cell { row: 0, col: 0 }, "10")
        .unwrap();
    backend
        .set_cell_value(Cell { row: 0, col: 1 }, "20")
        .unwrap();
    backend
        .set_cell_value(Cell { row: 0, col: 2 }, "30")
        .unwrap();

    let range = RangeFunction {
        top_left: Cell { row: 0, col: 0 },
        bottom_right: Cell { row: 0, col: 2 },
    };
    let result = backend.sum_function(&range).unwrap();
    assert_eq!(result, 60);

    // Test with negative values
    backend
        .set_cell_value(Cell { row: 1, col: 0 }, "-10")
        .unwrap();
    backend
        .set_cell_value(Cell { row: 1, col: 1 }, "-20")
        .unwrap();
    let range = RangeFunction {
        top_left: Cell { row: 1, col: 0 },
        bottom_right: Cell { row: 1, col: 1 },
    };
    let result = backend.sum_function(&range).unwrap();
    assert_eq!(result, -30);
}

#[test]
fn test_stdev_function() {
    let mut backend = Backend::new(3, 3);
    backend
        .set_cell_value(Cell { row: 0, col: 0 }, "10")
        .unwrap();
    backend
        .set_cell_value(Cell { row: 0, col: 1 }, "20")
        .unwrap();
    backend
        .set_cell_value(Cell { row: 0, col: 2 }, "30")
        .unwrap();

    let range = RangeFunction {
        top_left: Cell { row: 0, col: 0 },
        bottom_right: Cell { row: 0, col: 2 },
    };
    let result = backend.stdev_function(&range).unwrap();
    assert_eq!(result, 8); // Standard deviation of [10, 20, 30] is approximately 8.16, floored to 8

    // Test with a single value
    let range = RangeFunction {
        top_left: Cell { row: 0, col: 0 },
        bottom_right: Cell { row: 0, col: 0 },
    };
    let result = backend.stdev_function(&range).unwrap();
    assert_eq!(result, 0);
}

#[test]
fn test_plus_op() {
    let mut backend = Backend::new(3, 3);
    backend
        .set_cell_value(Cell { row: 0, col: 0 }, "10")
        .unwrap();
    backend
        .set_cell_value(Cell { row: 0, col: 1 }, "20")
        .unwrap();

    let bin_op = BinaryOp {
        first: Operand {
            type_: OperandType::Cell,
            data: OperandData::Cell(Cell { row: 0, col: 0 }),
        },
        second: Operand {
            type_: OperandType::Cell,
            data: OperandData::Cell(Cell { row: 0, col: 1 }),
        },
    };
    let result = backend.plus_op(&bin_op).unwrap();
    assert_eq!(result, 30);

    // Test with negative values
    backend
        .set_cell_value(Cell { row: 0, col: 0 }, "-10")
        .unwrap();
    let result = backend.plus_op(&bin_op).unwrap();
    assert_eq!(result, 10);
}

#[test]
fn test_minus_op() {
    let mut backend = Backend::new(3, 3);
    backend
        .set_cell_value(Cell { row: 0, col: 0 }, "20")
        .unwrap();
    backend
        .set_cell_value(Cell { row: 0, col: 1 }, "10")
        .unwrap();

    let bin_op = BinaryOp {
        first: Operand {
            type_: OperandType::Cell,
            data: OperandData::Cell(Cell { row: 0, col: 0 }),
        },
        second: Operand {
            type_: OperandType::Cell,
            data: OperandData::Cell(Cell { row: 0, col: 1 }),
        },
    };
    let result = backend.minus_op(&bin_op).unwrap();
    assert_eq!(result, 10);

    // Test with negative values
    backend
        .set_cell_value(Cell { row: 0, col: 1 }, "-10")
        .unwrap();
    let result = backend.minus_op(&bin_op).unwrap();
    assert_eq!(result, 30);
}

#[test]
fn test_multiply_op() {
    let mut backend = Backend::new(3, 3);
    backend
        .set_cell_value(Cell { row: 0, col: 0 }, "5")
        .unwrap();
    backend
        .set_cell_value(Cell { row: 0, col: 1 }, "4")
        .unwrap();

    let bin_op = BinaryOp {
        first: Operand {
            type_: OperandType::Cell,
            data: OperandData::Cell(Cell { row: 0, col: 0 }),
        },
        second: Operand {
            type_: OperandType::Cell,
            data: OperandData::Cell(Cell { row: 0, col: 1 }),
        },
    };
    let result = backend.multiply_op(&bin_op).unwrap();
    assert_eq!(result, 20);

    // Test with zero
    backend
        .set_cell_value(Cell { row: 0, col: 1 }, "0")
        .unwrap();
    let result = backend.multiply_op(&bin_op).unwrap();
    assert_eq!(result, 0);
}

#[test]
fn test_divide_op() {
    let mut backend = Backend::new(3, 3);
    backend
        .set_cell_value(Cell { row: 0, col: 0 }, "20")
        .unwrap();
    backend
        .set_cell_value(Cell { row: 0, col: 1 }, "10")
        .unwrap();

    let bin_op = BinaryOp {
        first: Operand {
            type_: OperandType::Cell,
            data: OperandData::Cell(Cell { row: 0, col: 0 }),
        },
        second: Operand {
            type_: OperandType::Cell,
            data: OperandData::Cell(Cell { row: 0, col: 1 }),
        },
    };
    let result = backend.divide_op(&bin_op).unwrap();
    assert_eq!(result, 2);

    // Test division by zero
    backend
        .set_cell_value(Cell { row: 0, col: 1 }, "0")
        .unwrap();
    let result = backend.divide_op(&bin_op);
    assert!(result.is_err());
    assert_eq!(result.unwrap_err(), CellError::DivideByZero);
}

#[test]
fn test_get_operand_value() {
    let mut backend = Backend::new(3, 3);
    backend
        .set_cell_value(Cell { row: 0, col: 0 }, "42")
        .unwrap();

    let operand = Operand {
        type_: OperandType::Cell,
        data: OperandData::Cell(Cell { row: 0, col: 0 }),
    };

    let result = backend.get_operand_value(&operand).unwrap();
    assert_eq!(result, 42);
}

#[test]
fn test_get_rows() {
    let backend = Backend::new(3, 3);
    assert_eq!(backend.get_rows(), 3);
}

#[test]
fn test_get_cols() {
    let backend = Backend::new(3, 3);
    assert_eq!(backend.get_cols(), 3);
}

#[test]
fn test_update_graph_with_range_function() {
    let mut backend = Backend::new(5, 5);
    let cell = Cell { row: 2, col: 2 };

    // Set the old function as a RangeFunction
    let _old_function = Function::new_range_function(
        FunctionType::Sum,
        RangeFunction {
            top_left: Cell { row: 0, col: 0 },
            bottom_right: Cell { row: 1, col: 1 },
        },
    );

    // Verify that the old dependencies are removed
    {
        for row in 0..=1 {
            for col in 0..=1 {
                let parent_data = backend.get_cell_value(row, col);
                assert!(!parent_data.dependents.contains(&(2, 2)));
            }
        }
    }

    // Set the new function as a RangeFunction
    backend.set_cell_value(cell, "SUM(A1:B2)").unwrap();


    // Verify that the new dependencies are added
    {
        for row in 0..=1 {
            for col in 0..=1 {
                let parent_data = backend.get_cell_value(row, col);
                assert!(parent_data.dependents.contains(&(2, 2)));
            }
        }
    }
}

#[test]
fn test_update_graph_with_binary_op() {
    let mut backend = Backend::new(5, 5);
    let cell = Cell { row: 2, col: 2 };

    // Set the old function as a BinaryOp
    let _old_function = Function::new_binary_op(
        FunctionType::Plus,
        BinaryOp {
            first: Operand {
                type_: OperandType::Cell,
                data: OperandData::Cell(Cell { row: 0, col: 0 }),
            },
            second: Operand {
                type_: OperandType::Cell,
                data: OperandData::Cell(Cell { row: 1, col: 1 }),
            },
        },
    );

    // Verify that the old dependencies are removed
    {
        let parent_data = backend.get_cell_value(0, 0);
        assert!(!parent_data.dependents.contains(&(2, 2)));

        let parent_data = backend.get_cell_value(0, 1);
        assert!(!parent_data.dependents.contains(&(2, 2)));
    }

    // Set the new function as a BinaryOp
    backend.set_cell_value(cell, "A1+B1").unwrap();


    // Verify that the new dependencies are added
    {
        let parent_data = backend.get_cell_value(0, 0);
        assert!(parent_data.dependents.contains(&(2, 2)));

        let parent_data2 = backend.get_cell_value(0, 1);
        assert!(parent_data2.dependents.contains(&(2, 2)));
    }
}

#[test]
fn test_update_graph_with_sleep_cell() {
    let mut backend = Backend::new(5, 5);
    let cell = Cell { row: 2, col: 2 };

    // Set the old function as a SleepValue
    let _old_function = Function {
        type_: FunctionType::Sleep,
        data: FunctionData::SleepValue(Operand {
            type_: OperandType::Cell,
            data: OperandData::Cell(Cell { row: 0, col: 0 }),
        }),
    };

    // Verify that the old dependencies are removed
    {
        let parent_data = backend.get_cell_value(0, 0);
        assert!(!parent_data.dependents.contains(&(2, 2)));
    }

    // Set the new function as a SleepValue
    backend.set_cell_value(cell, "SLEEP(A1)").unwrap();


    // Verify that the new dependencies are added
    {
        let parent_data = backend.get_cell_value(0, 0);
        assert!(parent_data.dependents.contains(&(2, 2)));
    }
}

#[test]
fn test_update_graph_with_sleep_value() {
    let mut backend = Backend::new(5, 5);
    let cell = Cell { row: 2, col: 2 };

    // Set the old function as a SleepValue
    let _old_function = Function {
        type_: FunctionType::Sleep,
        data: FunctionData::SleepValue(Operand {
            type_: OperandType::Int,
            data: OperandData::Value(0),
        }),
    };

    // Set the new function as a SleepValue
    backend.set_cell_value(cell, "SLEEP(0)").unwrap();
}

#[test]
fn test_update_graph_with_cell_data_as_range_function() {
    let mut backend = Backend::new(5, 5);
    let cell = Cell { row: 2, col: 2 };

    // Set the cell's function as a RangeFunction
    backend.set_cell_value(cell, "SUM(A1:B2)").unwrap();


    // Verify that the dependencies are added
    {
        for row in 0..=1 {
            for col in 0..=1 {
                let parent_data = backend.get_cell_value(row, col);
                assert!(parent_data.dependents.contains(&(2, 2)));
            }
        }
    }
}

#[test]
fn test_get_operand_value_division_by_zero_error() {
    let mut backend = Backend::new(3, 3);

    // Set a cell value to 0 to simulate division by zero
    let cell = Cell { row: 0, col: 0 };
    backend.set_cell_value(cell, "0").unwrap();

    // Create an operand referencing the cell
    let operand = Operand {
        type_: OperandType::Cell,
        data: OperandData::Cell(cell),
    };

    // Simulate a division by zero error
    let mut snap = backend.create_snapshot();
    snap[0][0].error = CellError::DivideByZero;
    backend.apply_snapshot(snap);

    // Call get_operand_value and verify the error
    let result = backend.get_operand_value(&operand);
    assert!(result.is_err());
    assert_eq!(result.unwrap_err(), CellError::DivideByZero);
}

#[test]
fn test_get_operand_value_dependency_error() {
    let mut backend = Backend::new(3, 3);

    // Set a cell value to simulate a dependency error
    let cell = Cell { row: 1, col: 1 };
    backend.set_cell_value(cell, "42").unwrap();

    // Create an operand referencing the cell
    let operand = Operand {
        type_: OperandType::Cell,
        data: OperandData::Cell(cell),
    };

    // Simulate a dependency error
    let mut snap = backend.create_snapshot();
    snap[1][1].error = CellError::DependencyError;
    backend.apply_snapshot(snap);

    // Call get_operand_value and verify the error
    let result = backend.get_operand_value(&operand);
    assert!(result.is_err());
    assert_eq!(result.unwrap_err(), CellError::DependencyError);
}

#[test]
fn test_sum_function_division_by_zero_error() {
    let mut backend = Backend::new(3, 3);

    // Set a cell with a division by zero error
    let cell = Cell { row: 0, col: 0 };
    backend.set_cell_value(cell, "0").unwrap();
    let mut snap = backend.create_snapshot();
    snap[0][0].error = CellError::DivideByZero;
    backend.apply_snapshot(snap);

    let range = RangeFunction {
        top_left: Cell { row: 0, col: 0 },
        bottom_right: Cell { row: 0, col: 0 },
    };

    let result = backend.sum_function(&range);
    assert!(result.is_err());
    assert_eq!(result.unwrap_err(), CellError::DivideByZero);
}

#[test]
fn test_sum_function_dependency_error() {
    let mut backend = Backend::new(3, 3);

    // Set a cell with a dependency error
    let cell = Cell { row: 0, col: 0 };
    backend.set_cell_value(cell, "42").unwrap();
    let mut snap = backend.create_snapshot();
    snap[0][0].error = CellError::DependencyError;
    backend.apply_snapshot(snap);

    let range = RangeFunction {
        top_left: Cell { row: 0, col: 0 },
        bottom_right: Cell { row: 0, col: 0 },
    };

    let result = backend.sum_function(&range);
    assert!(result.is_err());
    assert_eq!(result.unwrap_err(), CellError::DependencyError);
}

#[test]
fn test_stdev_function_division_by_zero_error() {
    let mut backend = Backend::new(3, 3);

    // Set a cell with a division by zero error
    let cell = Cell { row: 0, col: 0 };
    backend.set_cell_value(cell, "0").unwrap();
    let mut snap = backend.create_snapshot();
    snap[0][0].error = CellError::DivideByZero;
    backend.apply_snapshot(snap);

    let range = RangeFunction {
        top_left: Cell { row: 0, col: 0 },
        bottom_right: Cell { row: 0, col: 0 },
    };

    let result = backend.stdev_function(&range);
    assert!(result.is_err());
    assert_eq!(result.unwrap_err(), CellError::DivideByZero);
}

#[test]
fn test_stdev_function_dependency_error() {
    let mut backend = Backend::new(3, 3);

    // Set a cell with a dependency error
    let cell = Cell { row: 0, col: 0 };
    backend.set_cell_value(cell, "42").unwrap();
    let mut snap = backend.create_snapshot();
    snap[0][0].error = CellError::DependencyError;
    backend.apply_snapshot(snap);

    let range = RangeFunction {
        top_left: Cell { row: 0, col: 0 },
        bottom_right: Cell { row: 0, col: 0 },
    };

    let result = backend.stdev_function(&range);
    assert!(result.is_err());
    assert_eq!(result.unwrap_err(), CellError::DependencyError);
}

#[test]
fn test_avg_function_division_by_zero_error() {
    let mut backend = Backend::new(3, 3);

    // Set a cell with a division by zero error
    let cell = Cell { row: 0, col: 0 };
    backend.set_cell_value(cell, "0").unwrap();
    let mut snap = backend.create_snapshot();
    snap[0][0].error = CellError::DivideByZero;
    backend.apply_snapshot(snap);

    let range = RangeFunction {
        top_left: Cell { row: 0, col: 0 },
        bottom_right: Cell { row: 0, col: 0 },
    };

    let result = backend.avg_function(&range);
    assert!(result.is_err());
    assert_eq!(result.unwrap_err(), CellError::DivideByZero);
}

#[test]
fn test_avg_function_dependency_error() {
    let mut backend = Backend::new(3, 3);

    // Set a cell with a dependency error
    let cell = Cell { row: 0, col: 0 };
    backend.set_cell_value(cell, "42").unwrap();
    let mut snap = backend.create_snapshot();
    snap[0][0].error = CellError::DependencyError;
    backend.apply_snapshot(snap);

    let range = RangeFunction {
        top_left: Cell { row: 0, col: 0 },
        bottom_right: Cell { row: 0, col: 0 },
    };

    let result = backend.avg_function(&range);
    assert!(result.is_err());
    assert_eq!(result.unwrap_err(), CellError::DependencyError);
}

#[test]
fn test_max_function_division_by_zero_error() {
    let mut backend = Backend::new(3, 3);

    // Set a cell with a division by zero error
    let cell = Cell { row: 0, col: 0 };
    backend.set_cell_value(cell, "0").unwrap();
    let mut snap = backend.create_snapshot();
    snap[0][0].error = CellError::DivideByZero;
    backend.apply_snapshot(snap);

    let range = RangeFunction {
        top_left: Cell { row: 0, col: 0 },
        bottom_right: Cell { row: 0, col: 0 },
    };

    let result = backend.max_function(&range);
    assert!(result.is_err());
    assert_eq!(result.unwrap_err(), CellError::DivideByZero);
}

#[test]
fn test_max_function_dependency_error() {
    let mut backend = Backend::new(3, 3);

    // Set a cell with a dependency error
    let cell = Cell { row: 0, col: 0 };
    backend.set_cell_value(cell, "42").unwrap();
    let mut snap = backend.create_snapshot();
    snap[0][0].error = CellError::DependencyError;
    backend.apply_snapshot(snap);

    let range = RangeFunction {
        top_left: Cell { row: 0, col: 0 },
        bottom_right: Cell { row: 0, col: 0 },
    };

    let result = backend.max_function(&range);
    assert!(result.is_err());
    assert_eq!(result.unwrap_err(), CellError::DependencyError);
}

#[test]
fn test_min_function_division_by_zero_error() {
    let mut backend = Backend::new(3, 3);

    // Set a cell with a division by zero error
    let cell = Cell { row: 0, col: 0 };
    backend.set_cell_value(cell, "0").unwrap();
    let mut snap = backend.create_snapshot();
    snap[0][0].error = CellError::DivideByZero;
    backend.apply_snapshot(snap);

    let range = RangeFunction {
        top_left: Cell { row: 0, col: 0 },
        bottom_right: Cell { row: 0, col: 0 },
    };

    let result = backend.min_function(&range);
    assert!(result.is_err());
    assert_eq!(result.unwrap_err(), CellError::DivideByZero);
}

#[test]
fn test_min_function_dependency_error() {
    let mut backend = Backend::new(3, 3);

    // Set a cell with a dependency error
    let cell = Cell { row: 0, col: 0 };
    backend.set_cell_value(cell, "42").unwrap();
    let mut snap = backend.create_snapshot();
    snap[0][0].error = CellError::DependencyError;
    backend.apply_snapshot(snap);

    let range = RangeFunction {
        top_left: Cell { row: 0, col: 0 },
        bottom_right: Cell { row: 0, col: 0 },
    };

    let result = backend.min_function(&range);
    assert!(result.is_err());
    assert_eq!(result.unwrap_err(), CellError::DependencyError);
}

#[test]
fn test_evaluate_expression_minus() {
    let mut backend = Backend::new(3, 3);

    // Set up operands
    backend
        .set_cell_value(Cell { row: 0, col: 0 }, "20")
        .unwrap();
    backend
        .set_cell_value(Cell { row: 0, col: 1 }, "10")
        .unwrap();

    // Create a minus function
    let func = Function::new_binary_op(
        FunctionType::Minus,
        BinaryOp {
            first: Operand {
                type_: OperandType::Cell,
                data: OperandData::Cell(Cell { row: 0, col: 0 }),
            },
            second: Operand {
                type_: OperandType::Cell,
                data: OperandData::Cell(Cell { row: 0, col: 1 }),
            },
        },
    );

    // Evaluate the function
    let (value, error) = backend.evaluate_expression(&func);
    assert_eq!(value, 10);
    assert_eq!(error, CellError::NoError);
}

#[test]
fn test_evaluate_expression_multiply() {
    let mut backend = Backend::new(3, 3);

    // Set up operands
    backend
        .set_cell_value(Cell { row: 0, col: 0 }, "5")
        .unwrap();
    backend
        .set_cell_value(Cell { row: 0, col: 1 }, "4")
        .unwrap();

    // Create a multiply function
    let func = Function::new_binary_op(
        FunctionType::Multiply,
        BinaryOp {
            first: Operand {
                type_: OperandType::Cell,
                data: OperandData::Cell(Cell { row: 0, col: 0 }),
            },
            second: Operand {
                type_: OperandType::Cell,
                data: OperandData::Cell(Cell { row: 0, col: 1 }),
            },
        },
    );

    // Evaluate the function
    let (value, error) = backend.evaluate_expression(&func);
    assert_eq!(value, 20);
    assert_eq!(error, CellError::NoError);
}

#[test]
fn test_evaluate_expression_divide() {
    let mut backend = Backend::new(3, 3);

    // Set up operands
    backend
        .set_cell_value(Cell { row: 0, col: 0 }, "20")
        .unwrap();
    backend
        .set_cell_value(Cell { row: 0, col: 1 }, "10")
        .unwrap();

    // Create a divide function
    let func = Function::new_binary_op(
        FunctionType::Divide,
        BinaryOp {
            first: Operand {
                type_: OperandType::Cell,
                data: OperandData::Cell(Cell { row: 0, col: 0 }),
            },
            second: Operand {
                type_: OperandType::Cell,
                data: OperandData::Cell(Cell { row: 0, col: 1 }),
            },
        },
    );

    // Evaluate the function
    let (value, error) = backend.evaluate_expression(&func);
    assert_eq!(value, 2);
    assert_eq!(error, CellError::NoError);
}

#[test]
fn test_evaluate_expression_min() {
    let mut backend = Backend::new(3, 3);

    // Set up range values
    backend
        .set_cell_value(Cell { row: 0, col: 0 }, "10")
        .unwrap();
    backend
        .set_cell_value(Cell { row: 0, col: 1 }, "20")
        .unwrap();
    backend
        .set_cell_value(Cell { row: 0, col: 2 }, "5")
        .unwrap();

    // Create a min function
    let func = Function::new_range_function(
        FunctionType::Min,
        RangeFunction {
            top_left: Cell { row: 0, col: 0 },
            bottom_right: Cell { row: 0, col: 2 },
        },
    );

    // Evaluate the function
    let (value, error) = backend.evaluate_expression(&func);
    assert_eq!(value, 5);
    assert_eq!(error, CellError::NoError);
}

#[test]
fn test_evaluate_expression_max() {
    let mut backend = Backend::new(3, 3);

    // Set up range values
    backend
        .set_cell_value(Cell { row: 0, col: 0 }, "10")
        .unwrap();
    backend
        .set_cell_value(Cell { row: 0, col: 1 }, "20")
        .unwrap();
    backend
        .set_cell_value(Cell { row: 0, col: 2 }, "5")
        .unwrap();

    // Create a max function
    let func = Function::new_range_function(
        FunctionType::Max,
        RangeFunction {
            top_left: Cell { row: 0, col: 0 },
            bottom_right: Cell { row: 0, col: 2 },
        },
    );

    // Evaluate the function
    let (value, error) = backend.evaluate_expression(&func);
    assert_eq!(value, 20);
    assert_eq!(error, CellError::NoError);
}

#[test]
fn test_evaluate_expression_avg() {
    let mut backend = Backend::new(3, 3);

    // Set up range values
    backend
        .set_cell_value(Cell { row: 0, col: 0 }, "10")
        .unwrap();
    backend
        .set_cell_value(Cell { row: 0, col: 1 }, "20")
        .unwrap();
    backend
        .set_cell_value(Cell { row: 0, col: 2 }, "30")
        .unwrap();

    // Create an avg function
    let func = Function::new_range_function(
        FunctionType::Avg,
        RangeFunction {
            top_left: Cell { row: 0, col: 0 },
            bottom_right: Cell { row: 0, col: 2 },
        },
    );

    // Evaluate the function
    let (value, error) = backend.evaluate_expression(&func);
    assert_eq!(value, 20);
    assert_eq!(error, CellError::NoError);
}

#[test]
fn test_evaluate_expression_stdev() {
    let mut backend = Backend::new(3, 3);

    // Set up range values
    backend
        .set_cell_value(Cell { row: 0, col: 0 }, "10")
        .unwrap();
    backend
        .set_cell_value(Cell { row: 0, col: 1 }, "20")
        .unwrap();
    backend
        .set_cell_value(Cell { row: 0, col: 2 }, "30")
        .unwrap();

    // Create a stdev function
    let func = Function::new_range_function(
        FunctionType::Stdev,
        RangeFunction {
            top_left: Cell { row: 0, col: 0 },
            bottom_right: Cell { row: 0, col: 2 },
        },
    );

    // Evaluate the function
    let (value, error) = backend.evaluate_expression(&func);
    assert_eq!(value, 8); // Standard deviation of [10, 20, 30] is approximately 8.16, floored to 8
    assert_eq!(error, CellError::NoError);
}

#[test]
fn test_update_graph_with_range_function2() {
    let mut backend = Backend::new(5, 5);
    let cell = Cell { row: 2, col: 2 };

    // Set the old function as a RangeFunction
    let old_function = Function::new_range_function(
        FunctionType::Sum,
        RangeFunction {
            top_left: Cell { row: 0, col: 0 },
            bottom_right: Cell { row: 1, col: 1 },
        },
    );
    // Verify that the old dependencies are removed
    {
        for row in 0..=1 {
            for col in 0..=1 {
                let parent_data = backend.get_cell_value(row, col);
                assert!(!parent_data.dependents.contains(&(2, 2)));
            }
        }
    }

    // Set the new function as a RangeFunction
    backend.set_cell_value(cell, "SUM(A1:B2)").unwrap();

    backend.update_graph(&cell, &old_function);

    // Verify that the new dependencies are added
    {
        for row in 0..=1 {
            for col in 0..=1 {
                let parent_data = backend.get_cell_value(row, col);
                assert!(parent_data.dependents.contains(&(2, 2)));
            }
        }
    }
}

#[test]
fn test_update_graph_with_binary_op2() {
    let mut backend = Backend::new(5, 5);
    let cell = Cell { row: 2, col: 2 };

    // Set the old function as a BinaryOp
    let old_function = Function::new_binary_op(
        FunctionType::Plus,
        BinaryOp {
            first: Operand {
                type_: OperandType::Cell,
                data: OperandData::Cell(Cell { row: 0, col: 0 }),
            },
            second: Operand {
                type_: OperandType::Cell,
                data: OperandData::Cell(Cell { row: 1, col: 1 }),
            },
        },
    );
    // Verify that the old dependencies are removed
    {
        let parent_data = backend.get_cell_value(0, 0);
        assert!(!parent_data.dependents.contains(&(2, 2)));

        let parent_data = backend.get_cell_value(1, 1);
        assert!(!parent_data.dependents.contains(&(2, 2)));
    }

    // Set the new function as a BinaryOp
    backend.set_cell_value(cell, "A1+B2").unwrap();

    backend.update_graph(&cell, &old_function);

    // Verify that the new dependencies are added
    {
        let parent_data = backend.get_cell_value(0, 0);
        assert!(parent_data.dependents.contains(&(2, 2)));

        let parent_data = backend.get_cell_value(1, 1);
        assert!(parent_data.dependents.contains(&(2, 2)));
    }
}

#[test]
fn test_update_graph_with_sleep_value2() {
    let mut backend = Backend::new(5, 5);
    let cell = Cell { row: 2, col: 2 };

    // Set the old function as a SleepValue
    let old_function = Function {
        type_: FunctionType::Sleep,
        data: FunctionData::SleepValue(Operand {
            type_: OperandType::Cell,
            data: OperandData::Cell(Cell { row: 0, col: 0 }),
        }),
    };
    // Verify that the old dependencies are removed
    {
        let parent_data = backend.get_cell_value(0, 0);
        assert!(!parent_data.dependents.contains(&(2, 2)));
    }

    // Set the new function as a SleepValue
    backend.set_cell_value(cell, "SLEEP(A1)").unwrap();

    backend.update_graph(&cell, &old_function);

    // Verify that the new dependencies are added
    {
        let parent_data = backend.get_cell_value(0, 0);
        assert!(parent_data.dependents.contains(&(2, 2)));
    }
}
