//! Value types of the spreadsheet: cell addresses, formulas and per-cell records.
use vstd::prelude::*;

verus! {

/// A zero-based `(row, col)` address of a grid slot.
#[derive(Debug, Clone, Copy, PartialEq, Eq, Hash, Structural)]
pub struct Cell {
    pub row: usize,
    pub col: usize,
}

impl Cell {
    /// Creates the address of the cell at `row`, `col`.
    pub fn new(row: usize, col: usize) -> (r: Self)
        ensures
            r == (Cell { row, col }),
    {
        Cell { row, col }
    }
}

/// Runtime error carried by a cell's computed result.
#[derive(Debug, Clone, Copy, PartialEq, Eq, Structural)]
pub enum CellError {
    NoError,
    DivideByZero,
    Overflow,
    DependencyError,
}

/// Error returned by an edit that is rejected as a whole.
#[derive(Debug, Clone, Copy, PartialEq, Eq, Structural)]
pub enum ExpressionError {
    CouldNotParse,
    CircularDependency,
}

/// Kind of an operand: a cell reference or an integer literal.
#[derive(Debug, Clone, Copy, PartialEq, Eq, Structural)]
pub enum OperandType {
    Cell,
    Int,
}

/// What an operand holds.
#[derive(Debug, Clone, Copy, PartialEq, Eq, Structural)]
pub enum OperandData {
    Cell(Cell),
    Value(i32),
}

/// An operand of a binary operation or of `SLEEP`.
#[derive(Debug, Clone, Copy, PartialEq, Eq, Structural)]
pub struct Operand {
    pub type_: OperandType,
    pub data: OperandData,
}

/// The two operands of an arithmetic operation.
#[derive(Debug, Clone, Copy, PartialEq, Eq, Structural)]
pub struct BinaryOp {
    pub first: Operand,
    pub second: Operand,
}

/// A rectangle of cells given by its top-left and bottom-right corners.
#[derive(Debug, Clone, Copy, PartialEq, Eq, Structural)]
pub struct RangeFunction {
    pub top_left: Cell,
    pub bottom_right: Cell,
}

/// The operation a formula performs.
#[derive(Debug, Clone, Copy, PartialEq, Eq, Structural)]
pub enum FunctionType {
    Constant,
    Min,
    Max,
    Avg,
    Sum,
    Stdev,
    Sleep,
    Plus,
    Minus,
    Multiply,
    Divide,
}

/// The arguments of a formula.
#[derive(Debug, Clone, Copy, PartialEq, Eq, Structural)]
pub enum FunctionData {
    RangeFunction(RangeFunction),
    BinaryOp(BinaryOp),
    SleepValue(Operand),
    Value(i32),
}

/// A formula: an operation and its arguments.
#[derive(Debug, Clone, Copy, PartialEq, Eq, Structural)]
pub struct Function {
    pub type_: FunctionType,
    pub data: FunctionData,
}

pub open spec fn is_range_type(t: FunctionType) -> bool {
    t is Min || t is Max || t is Avg || t is Sum || t is Stdev
}

pub open spec fn is_binary_type(t: FunctionType) -> bool {
    t is Plus || t is Minus || t is Multiply || t is Divide
}

/// The operand that stands for a cell reference.
pub open spec fn cell_operand(c: Cell) -> Operand {
    Operand { type_: OperandType::Cell, data: OperandData::Cell(c) }
}

/// The operand that stands for an integer literal.
pub open spec fn int_operand(v: i32) -> Operand {
    Operand { type_: OperandType::Int, data: OperandData::Value(v) }
}

impl Function {
    /// Creates a range aggregate (`MIN`, `MAX`, `AVG`, `SUM` or `STDEV`).
    pub fn new_range_function(type_: FunctionType, range: RangeFunction) -> (r: Self)
        requires
            is_range_type(type_),
        ensures
            r == (Function { type_, data: FunctionData::RangeFunction(range) }),
    {
        Function { type_, data: FunctionData::RangeFunction(range) }
    }

    /// Creates an arithmetic operation (`+`, `-`, `*` or `/`).
    pub fn new_binary_op(type_: FunctionType, op: BinaryOp) -> (r: Self)
        requires
            is_binary_type(type_),
        ensures
            r == (Function { type_, data: FunctionData::BinaryOp(op) }),
    {
        Function { type_, data: FunctionData::BinaryOp(op) }
    }

    /// Creates a constant formula.
    pub fn new_constant(value: i32) -> (r: Self)
        ensures
            r == (Function { type_: FunctionType::Constant, data: FunctionData::Value(value) }),
    {
        Function { type_: FunctionType::Constant, data: FunctionData::Value(value) }
    }

    /// Creates a `SLEEP` of a literal number of seconds.
    pub fn new_sleep(value: i32) -> (r: Self)
        ensures
            r == (Function { type_: FunctionType::Sleep, data: FunctionData::SleepValue(int_operand(value)) }),
    {
        Function {
            type_: FunctionType::Sleep,
            data: FunctionData::SleepValue(Operand { type_: OperandType::Int, data: OperandData::Value(value) }),
        }
    }

    /// Creates a `SLEEP` whose duration is read from a cell.
    pub fn new_sleep_cell(cell: Cell) -> (r: Self)
        ensures
            r == (Function { type_: FunctionType::Sleep, data: FunctionData::SleepValue(cell_operand(cell)) }),
    {
        Function {
            type_: FunctionType::Sleep,
            data: FunctionData::SleepValue(Operand { type_: OperandType::Cell, data: OperandData::Cell(cell) }),
        }
    }
}

/// The record held by one grid slot.
#[derive(Debug, Clone)]
pub struct CellData {
    /// Last computed value; `0` whenever `error` is not `NoError`.
    pub value: i32,
    /// Cells whose formula reads this cell, as `(row, col)` pairs.
    pub dependents: Vec<(usize, usize)>,
    /// The cell's current formula.
    pub function: Function,
    /// Error of the last evaluation.
    pub error: CellError,
    /// Traversal marker; `0` in a well-formed grid, cleared by `reset_found`.
    pub dirty_parents: usize,
}

/// The record of a fresh cell: `Constant(0)`, value `0`, no error, no dependents.
pub open spec fn is_default_cell(d: CellData) -> bool {
    &&& d.value == 0
    &&& d.dependents@.len() == 0
    &&& d.function == (Function { type_: FunctionType::Constant, data: FunctionData::Value(0) })
    &&& d.error == CellError::NoError
    &&& d.dirty_parents == 0
}

impl Default for CellData {
    fn default() -> (r: Self)
        ensures
            is_default_cell(r),
    {
        CellData {
            value: 0,
            dependents: Vec::new(),
            function: Function::new_constant(0),
            error: CellError::NoError,
            dirty_parents: 0,
        }
    }
}

} // verus!
