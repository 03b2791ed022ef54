//! A spreadsheet engine: a grid of cells holding constants or formulas, a
//! dependency graph between them, cycle rejection and ordered recomputation.
pub mod backend;
pub mod cli;
pub mod eval;
pub mod frontend;
pub mod import;
pub mod model;
pub mod parser;
pub mod structs;
pub mod text;
pub mod vec;

pub use backend::Backend;
pub use frontend::Frontend;
pub use parser::{parse_binary_op, parse_cell_reference, parse_expression, parse_range_function};
pub use vec::VecWrapper;
pub use structs::{
    BinaryOp, Cell, CellData, CellError, ExpressionError, Function, FunctionData, FunctionType,
    Operand, OperandData, OperandType, RangeFunction,
};
