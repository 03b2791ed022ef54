//! The grid store, its dependency graph and the edit orchestration.
use vstd::prelude::*;
use crate::eval::{
    wrap_i32,
    average_value, binary_result, block_cells, checked_divide, checked_multiply, eval_spec,
    first_error, max_value, min_value, operand_result, range_cells, range_result, row_cells,
    stdev_value, total_value, values_of, wrapping_combine,
};
use crate::model::{
    ref_list, block_list, row_list, remove_pair, add_once, relinked, lemma_remove_pair, lemma_add_once, in_grid, operand_in_grid, formula_ok, range_ok, operand_reads, references, pair_of, cell_of, at,
    edge, is_walk, reaches, reaches_strictly, cells_wf, graph_consistent, settled_at, settled,
    acyclic, same_but_deps, shape_ok, lemma_refs_in_grid, reaches_some, flat_index,
    lemma_flat_index, count_false, lemma_count_false_set, lemma_closed_reach, lemma_edge_in_grid,
    marks_ok, stack_ok, closed_but, lemma_reaches_self, lemma_reaches_step, same_structure,
    lemma_wf_transfer, lemma_same_structure_trans, progress_ok, read_chain, lemma_chain_reaches,
    lemma_eval_one_changed, lemma_eval_frame, lemma_reaches_prepend, lemma_walk_back,
    lemma_reaches_transfer, lemma_install_acyclic, lemma_parse_ok, same_cell, is_copy_of,
    snapshot_view, lemma_copy_wf, rect_values, lemma_search_done, lemma_first_error_prefix,
    lemma_first_error_block,
};
use crate::parser::{formula_text, parse_chars, parse_spec, strip_assignment};
use crate::structs::{
    is_default_cell, BinaryOp, Cell, CellData, CellError, ExpressionError, Function, FunctionData,
    FunctionType, Operand, OperandData, RangeFunction,
};

verus! {

/// The spreadsheet engine: a `rows` x `cols` grid of cell records.
pub struct Backend {
    grid: Vec<Vec<CellData>>,
    rows: usize,
    cols: usize,
    /// Seconds of delay asked for by `SLEEP` formulas evaluated since the
    /// last `take_pending_sleep`; the caller performs the delay.
    pending_sleep: u64,
    /// Values taken by the last copy or cut, row by row.
    copy_stack: Vec<Vec<i32>>,
    /// Earlier states, most recent last.
    undo_stack: Vec<Vec<Vec<CellData>>>,
    /// Undone states, most recent last.
    redo_stack: Vec<Vec<Vec<CellData>>>,
}

/// Seconds of delay that formula `f` asks for when it evaluated to
/// `(value, error)`: a `SLEEP` with a positive value and no error.
pub open spec fn sleep_seconds(f: Function, value: i32, error: CellError) -> int {
    if f.data is SleepValue && error == CellError::NoError && value > 0 {
        value as int
    } else {
        0
    }
}

/// `a + b`, capped at `u64::MAX`.
pub open spec fn add_capped(a: int, b: int) -> int {
    if a + b > u64::MAX {
        u64::MAX as int
    } else {
        a + b
    }
}

/// Cell `x` lies in the block that pasting clipboard `clip` at `c` fills.
pub open spec fn pasted_at(c: Cell, clip: Seq<Seq<i32>>, x: Cell) -> bool {
    &&& c.row <= x.row < c.row + clip.len()
    &&& c.col <= x.col
    &&& clip.len() > 0
    &&& x.col < c.col + clip[0].len()
    &&& x.col - c.col < clip[x.row - c.row].len()
}

/// Cell `x` lies in the rectangle from `tl` to `br`.
pub open spec fn in_block(tl: Cell, br: Cell, x: Cell) -> bool {
    tl.row <= x.row <= br.row && tl.col <= x.col <= br.col
}

/// Every cell of the rectangle from `tl` to `br` holds the value `v`.
pub open spec fn block_constant(g: Seq<Seq<CellData>>, tl: Cell, br: Cell, v: i32) -> bool {
    forall|x: Cell| in_block(tl, br, x) ==> #[trigger] at(g, x).value == v
}

/// Down every column of the rectangle, each value minus the one below it is `d`.
pub open spec fn block_steps(g: Seq<Seq<CellData>>, tl: Cell, br: Cell, d: i32) -> bool {
    forall|x: Cell| in_block(tl, br, x) && x.row < br.row ==> wrap_i32(#[trigger] at(g, x).value
        - at(g, Cell { row: (x.row + 1) as usize, col: x.col }).value) == d
}

/// Every state kept in a history is a well-formed grid of `rows` x `cols`.
pub open spec fn history_ok(h: Seq<Vec<Vec<CellData>>>, rows: int, cols: int) -> bool {
    forall|k: int| 0 <= k < h.len() ==> cells_wf(snapshot_view(#[trigger] h[k]), rows, cols)
        && graph_consistent(snapshot_view(h[k]), rows, cols) && acyclic(snapshot_view(h[k]), rows, cols)
        && settled(snapshot_view(h[k]), rows, cols)
}

impl Backend {
    /// The cell records, row by row.
    pub closed spec fn cells(&self) -> Seq<Seq<CellData>> {
        self.grid@.map_values(|r: Vec<CellData>| r@)
    }

    pub closed spec fn num_rows(&self) -> int {
        self.rows as int
    }

    pub closed spec fn num_cols(&self) -> int {
        self.cols as int
    }

    /// Seconds of `SLEEP` that evaluations asked for and that nobody has taken yet.
    pub closed spec fn pending_seconds(&self) -> int {
        self.pending_sleep as int
    }

    /// The clipboard and the undo and redo histories.
    pub closed spec fn side(&self) -> (Seq<Vec<i32>>, Seq<Vec<Vec<CellData>>>, Seq<Vec<Vec<CellData>>>) {
        (self.copy_stack@, self.undo_stack@, self.redo_stack@)
    }

    pub closed spec fn undo_history(&self) -> Seq<Vec<Vec<CellData>>> {
        self.undo_stack@
    }

    pub closed spec fn redo_history(&self) -> Seq<Vec<Vec<CellData>>> {
        self.redo_stack@
    }

    pub closed spec fn clipboard(&self) -> Seq<Seq<i32>> {
        self.copy_stack@.map_values(|r: Vec<i32>| r@)
    }

    pub open spec fn cell_at(&self, c: Cell) -> CellData {
        at(self.cells(), c)
    }

    pub open spec fn contains(&self, c: Cell) -> bool {
        in_grid(c, self.num_rows(), self.num_cols())
    }

    /// The grid's invariant: the structure below, and every cell holding
    /// what its formula evaluates to.
    pub open spec fn wf(&self) -> bool {
        &&& self.structure_ok()
        &&& settled(self.cells(), self.num_rows(), self.num_cols())
    }

    /// The grid's structure: its shape, every formula inside the grid, markers
    /// cleared, dependents lists that agree with the formulas and form no
    /// cycle, and well-formed histories.
    pub open spec fn structure_ok(&self) -> bool {
        &&& cells_wf(self.cells(), self.num_rows(), self.num_cols())
        &&& graph_consistent(self.cells(), self.num_rows(), self.num_cols())
        &&& acyclic(self.cells(), self.num_rows(), self.num_cols())
        &&& history_ok(self.undo_history(), self.num_rows(), self.num_cols())
        &&& history_ok(self.redo_history(), self.num_rows(), self.num_cols())
    }

    proof fn lemma_cells(&self)
        requires
            self.grid@.len() == self.rows,
        ensures
            self.cells().len() == self.rows,
            forall|r: int| 0 <= r < self.rows ==> #[trigger] self.cells()[r] == self.grid@[r]@,
    {
    }

    /// Creates a `rows` x `cols` grid of fresh cells.
    pub fn new(rows: usize, cols: usize) -> (r: Self)
        requires
            rows * cols <= usize::MAX,
        ensures
            r.wf(),
            r.num_rows() == rows,
            r.num_cols() == cols,
            r.pending_seconds() == 0,
            forall|c: Cell| r.contains(c) ==> is_default_cell(#[trigger] r.cell_at(c)),
    {
        let mut grid: Vec<Vec<CellData>> = Vec::new();
        let mut i: usize = 0;
        while i < rows
            invariant
                i <= rows,
                grid@.len() == i,
                forall|a: int, b: int| 0 <= a < i && 0 <= b < cols ==> is_default_cell(#[trigger] grid@[a]@[b]),
                forall|a: int| 0 <= a < i ==> (#[trigger] grid@[a])@.len() == cols,
            decreases rows - i,
        {
            let mut row: Vec<CellData> = Vec::new();
            let mut j: usize = 0;
            while j < cols
                invariant
                    j <= cols,
                    row@.len() == j,
                    forall|b: int| 0 <= b < j ==> is_default_cell(#[trigger] row@[b]),
                decreases cols - j,
            {
                row.push(CellData::default());
                j += 1;
            }
            grid.push(row);
            i += 1;
        }
        let mut first: Vec<i32> = Vec::new();
        first.push(0);
        let mut copy_stack: Vec<Vec<i32>> = Vec::new();
        copy_stack.push(first);
        let r = Backend {
            grid,
            rows,
            cols,
            pending_sleep: 0,
            copy_stack,
            undo_stack: Vec::new(),
            redo_stack: Vec::new(),
        };
        proof {
            r.lemma_cells();
            assert forall|c: Cell| r.contains(c) implies is_default_cell(#[trigger] r.cell_at(c)) by {
                assert(r.cells()[c.row as int] == r.grid@[c.row as int]@);
            }
        }
        r
    }

    /// The grid's dimensions as `(rows, cols)`.
    pub fn get_rows_col(&self) -> (r: (usize, usize))
        ensures
            r.0 == self.num_rows(),
            r.1 == self.num_cols(),
    {
        (self.rows, self.cols)
    }

    /// The number of rows.
    pub fn get_rows(&self) -> (r: usize)
        ensures
            r == self.num_rows(),
    {
        self.rows
    }

    /// The number of columns.
    pub fn get_cols(&self) -> (r: usize)
        ensures
            r == self.num_cols(),
    {
        self.cols
    }

    /// The record of the cell at `row`, `col`.
    pub fn get_cell_value(&self, row: usize, col: usize) -> (r: &CellData)
        requires
            self.structure_ok(),
            row < self.num_rows(),
            col < self.num_cols(),
        ensures
            *r == self.cell_at(Cell { row, col }),
    {
        proof {
            self.lemma_cells();
        }
        &self.grid[row][col]
    }

    /// The value an operand reads: its literal, or the referenced cell's
    /// value, or that cell's error unchanged.
    pub fn get_operand_value(&self, operand: &Operand) -> (r: Result<i32, CellError>)
        requires
            self.structure_ok(),
            operand_in_grid(*operand, self.num_rows(), self.num_cols()),
        ensures
            r == operand_result(self.cells(), *operand),
    {
        proof {
            self.lemma_cells();
        }
        match operand.data {
            OperandData::Cell(c) => {
                let d = &self.grid[c.row][c.col];
                if d.error == CellError::NoError {
                    Ok(d.value)
                } else {
                    Err(d.error)
                }
            },
            OperandData::Value(v) => Ok(v),
        }
    }

    fn binary(&self, t: FunctionType, bin_op: &BinaryOp) -> (r: Result<i32, CellError>)
        requires
            self.structure_ok(),
            operand_in_grid(bin_op.first, self.num_rows(), self.num_cols()),
            operand_in_grid(bin_op.second, self.num_rows(), self.num_cols()),
        ensures
            r == binary_result(self.cells(), t, *bin_op),
    {
        let x = match self.get_operand_value(&bin_op.first) {
            Ok(x) => x,
            Err(e) => return Err(e),
        };
        let y = match self.get_operand_value(&bin_op.second) {
            Ok(y) => y,
            Err(e) => return Err(e),
        };
        match t {
            FunctionType::Plus => Ok(wrapping_combine(x, y, false)),
            FunctionType::Minus => Ok(wrapping_combine(x, y, true)),
            FunctionType::Multiply => checked_multiply(x, y),
            FunctionType::Divide => checked_divide(x, y),
            _ => Err(CellError::DependencyError),
        }
    }

    /// `first + second`, wrapping modulo 2^32; an operand's error is passed on.
    pub fn plus_op(&self, bin_op: &BinaryOp) -> (r: Result<i32, CellError>)
        requires
            self.structure_ok(),
            operand_in_grid(bin_op.first, self.num_rows(), self.num_cols()),
            operand_in_grid(bin_op.second, self.num_rows(), self.num_cols()),
        ensures
            r == binary_result(self.cells(), FunctionType::Plus, *bin_op),
    {
        self.binary(FunctionType::Plus, bin_op)
    }

    /// `first - second`, wrapping modulo 2^32; an operand's error is passed on.
    pub fn minus_op(&self, bin_op: &BinaryOp) -> (r: Result<i32, CellError>)
        requires
            self.structure_ok(),
            operand_in_grid(bin_op.first, self.num_rows(), self.num_cols()),
            operand_in_grid(bin_op.second, self.num_rows(), self.num_cols()),
        ensures
            r == binary_result(self.cells(), FunctionType::Minus, *bin_op),
    {
        self.binary(FunctionType::Minus, bin_op)
    }

    /// `first * second`, or `Overflow` when the product does not fit in `i32`.
    pub fn multiply_op(&self, bin_op: &BinaryOp) -> (r: Result<i32, CellError>)
        requires
            self.structure_ok(),
            operand_in_grid(bin_op.first, self.num_rows(), self.num_cols()),
            operand_in_grid(bin_op.second, self.num_rows(), self.num_cols()),
        ensures
            r == binary_result(self.cells(), FunctionType::Multiply, *bin_op),
    {
        self.binary(FunctionType::Multiply, bin_op)
    }

    /// `first / second` truncated, or `DivideByZero` on a zero divisor.
    pub fn divide_op(&self, bin_op: &BinaryOp) -> (r: Result<i32, CellError>)
        requires
            self.structure_ok(),
            operand_in_grid(bin_op.first, self.num_rows(), self.num_cols()),
            operand_in_grid(bin_op.second, self.num_rows(), self.num_cols()),
        ensures
            r == binary_result(self.cells(), FunctionType::Divide, *bin_op),
    {
        self.binary(FunctionType::Divide, bin_op)
    }

    /// The values of an error-free range in row-major order, or the first
    /// error met in that order.
    fn collect_range(&self, range: &RangeFunction) -> (r: Result<Vec<i32>, CellError>)
        requires
            self.structure_ok(),
            range_ok(*range, self.num_rows(), self.num_cols()),
        ensures
            first_error(range_cells(self.cells(), *range)) == CellError::NoError ==> r is Ok
                && r->Ok_0@ == values_of(range_cells(self.cells(), *range)),
            first_error(range_cells(self.cells(), *range)) != CellError::NoError ==> r
                == Err::<Vec<i32>, CellError>(first_error(range_cells(self.cells(), *range))),
    {
        proof {
            self.lemma_cells();
        }
        let ghost g = self.cells();
        let r0 = range.top_left.row;
        let r1 = range.bottom_right.row;
        let c0 = range.top_left.col;
        let c1 = range.bottom_right.col;
        let mut out: Vec<i32> = Vec::new();
        let ghost mut seen: Seq<CellData> = seq![];
        let mut r = r0;
        while r <= r1
            invariant
                self.structure_ok(),
                g == self.cells(),
                r0 == range.top_left.row && r1 == range.bottom_right.row,
                c0 == range.top_left.col && c1 == range.bottom_right.col,
                r0 <= r <= r1 + 1,
                r1 < self.rows,
                c0 <= c1 < self.cols,
                seen == block_cells(g, r0 as int, r - 1, c0 as int, c1 as int),
                first_error(seen) == CellError::NoError,
                out@ == values_of(seen),
            decreases r1 + 1 - r,
        {
            let mut c = c0;
            let ghost before = seen;
            while c <= c1
                invariant
                    self.structure_ok(),
                    g == self.cells(),
                    r0 == range.top_left.row && r1 == range.bottom_right.row,
                    c0 == range.top_left.col && c1 == range.bottom_right.col,
                    r0 <= r <= r1,
                    r1 < self.rows,
                    c0 <= c <= c1 + 1,
                    c1 < self.cols,
                    before == block_cells(g, r0 as int, r - 1, c0 as int, c1 as int),
                    seen == before + row_cells(g, r as int, c0 as int, c1 as int).take(c - c0),
                    first_error(seen) == CellError::NoError,
                    out@ == values_of(seen),
                decreases c1 + 1 - c,
            {
                let d = &self.grid[r][c];
                let ghost next = seen.push(*d);
                proof {
                    assert(next.drop_last() =~= seen);
                    assert(row_cells(g, r as int, c0 as int, c1 as int).take(c + 1 - c0)
                        =~= row_cells(g, r as int, c0 as int, c1 as int).take(c - c0).push(*d));
                    assert(before + row_cells(g, r as int, c0 as int, c1 as int).take(c + 1 - c0)
                        =~= next);
                }
                if d.error != CellError::NoError {
                    proof {
                        assert(first_error(next) == d.error);
                        assert((before + row_cells(g, r as int, c0 as int, c1 as int)).take(next.len() as int) =~= next);
                        lemma_first_error_prefix(before + row_cells(g, r as int, c0 as int, c1 as int), next);
                        assert(block_cells(g, r0 as int, r as int, c0 as int, c1 as int)
                            == before + row_cells(g, r as int, c0 as int, c1 as int));
                        lemma_first_error_block(g, r0 as int, r as int, r1 as int, c0 as int, c1 as int);
                        assert(first_error(before + row_cells(g, r as int, c0 as int, c1 as int)) == d.error);
                        assert(first_error(block_cells(g, r0 as int, r1 as int, c0 as int, c1 as int)) == d.error);
                        assert(range_cells(g, *range) == block_cells(g, r0 as int, r1 as int, c0 as int, c1 as int));
                    }
                    return Err(d.error);
                }
                out.push(d.value);
                proof {
                    seen = next;
                    assert(out@ =~= values_of(seen));
                }
                c += 1;
            }
            proof {
                assert(row_cells(g, r as int, c0 as int, c1 as int).take(c1 + 1 - c0)
                    =~= row_cells(g, r as int, c0 as int, c1 as int));
            }
            r += 1;
        }
        Ok(out)
    }

    /// The least value of the range, or its first error in row-major order.
    pub fn min_function(&self, range: &RangeFunction) -> (r: Result<i32, CellError>)
        requires
            self.structure_ok(),
            range_ok(*range, self.num_rows(), self.num_cols()),
        ensures
            r == range_result(self.cells(), FunctionType::Min, *range),
    {
        match self.collect_range(range) {
            Ok(v) => Ok(min_value(&v)),
            Err(e) => Err(e),
        }
    }

    /// The greatest value of the range, or its first error in row-major order.
    pub fn max_function(&self, range: &RangeFunction) -> (r: Result<i32, CellError>)
        requires
            self.structure_ok(),
            range_ok(*range, self.num_rows(), self.num_cols()),
        ensures
            r == range_result(self.cells(), FunctionType::Max, *range),
    {
        match self.collect_range(range) {
            Ok(v) => Ok(max_value(&v)),
            Err(e) => Err(e),
        }
    }

    /// The truncated mean of the range, or its first error in row-major order.
    pub fn avg_function(&self, range: &RangeFunction) -> (r: Result<i32, CellError>)
        requires
            self.structure_ok(),
            range_ok(*range, self.num_rows(), self.num_cols()),
        ensures
            r == range_result(self.cells(), FunctionType::Avg, *range),
    {
        match self.collect_range(range) {
            Ok(v) => average_value(&v),
            Err(e) => Err(e),
        }
    }

    /// The sum of the range (`Overflow` if it does not fit), or its first error.
    pub fn sum_function(&self, range: &RangeFunction) -> (r: Result<i32, CellError>)
        requires
            self.structure_ok(),
            range_ok(*range, self.num_rows(), self.num_cols()),
        ensures
            r == range_result(self.cells(), FunctionType::Sum, *range),
    {
        match self.collect_range(range) {
            Ok(v) => total_value(&v),
            Err(e) => Err(e),
        }
    }

    /// The rounded population standard deviation of the range around its
    /// truncated mean, or its first error in row-major order.
    pub fn stdev_function(&self, range: &RangeFunction) -> (r: Result<i32, CellError>)
        requires
            self.structure_ok(),
            range_ok(*range, self.num_rows(), self.num_cols()),
        ensures
            r == range_result(self.cells(), FunctionType::Stdev, *range),
    {
        match self.collect_range(range) {
            Ok(v) => stdev_value(&v),
            Err(e) => Err(e),
        }
    }

    /// Evaluates a formula against the current cells, as `(value, error)`;
    /// the value is `0` whenever the error is not `NoError`.
    pub fn evaluate_expression(&self, func: &Function) -> (r: (i32, CellError))
        requires
            self.structure_ok(),
            formula_ok(*func, self.num_rows(), self.num_cols()),
        ensures
            r == eval_spec(self.cells(), *func),
    {
        let res = match func.data {
            FunctionData::BinaryOp(b) => match func.type_ {
                FunctionType::Plus => self.plus_op(&b),
                FunctionType::Minus => self.minus_op(&b),
                FunctionType::Multiply => self.multiply_op(&b),
                FunctionType::Divide => self.divide_op(&b),
                _ => Err(CellError::DependencyError),
            },
            FunctionData::RangeFunction(rf) => match func.type_ {
                FunctionType::Min => self.min_function(&rf),
                FunctionType::Max => self.max_function(&rf),
                FunctionType::Avg => self.avg_function(&rf),
                FunctionType::Sum => self.sum_function(&rf),
                FunctionType::Stdev => self.stdev_function(&rf),
                _ => Err(CellError::DependencyError),
            },
            FunctionData::SleepValue(op) => self.get_operand_value(&op),
            FunctionData::Value(v) => Ok(v),
        };
        match res {
            Ok(v) => (v, CellError::NoError),
            Err(e) => (0, e),
        }
    }
}

/// The cells a formula reads directly, each range cell in row-major order.
pub fn referenced_cells(f: &Function) -> (r: Vec<Cell>)
    requires
        f.data is RangeFunction ==> ({
            let rf = f.data->RangeFunction_0;
            rf.top_left.row <= rf.bottom_right.row < usize::MAX && rf.top_left.col
                <= rf.bottom_right.col < usize::MAX
        }),
    ensures
        forall|c: Cell| r@.contains(c) <==> references(*f, c),
        r@ == ref_list(*f),
{
    let mut out: Vec<Cell> = Vec::new();
    match f.data {
        FunctionData::BinaryOp(b) => {
            if let OperandData::Cell(c) = b.first.data {
                out.push(c);
            }
            if let OperandData::Cell(c) = b.second.data {
                out.push(c);
            }
            assert(out@ =~= ref_list(*f));
            assert forall|c: Cell| out@.contains(c) <==> references(*f, c) by {
                if references(*f, c) {
                    if operand_reads(b.first, c) {
                        assert(out@[0] == c);
                    } else {
                        assert(out@[out@.len() - 1] == c);
                    }
                }
            }
        },
        FunctionData::SleepValue(op) => {
            if let OperandData::Cell(c) = op.data {
                out.push(c);
            }
            assert(out@ =~= ref_list(*f));
            assert forall|c: Cell| out@.contains(c) <==> references(*f, c) by {
                if references(*f, c) {
                    assert(out@[0] == c);
                }
            }
        },
        FunctionData::RangeFunction(rf) => {
            let mut r = rf.top_left.row;
            while r <= rf.bottom_right.row
                invariant
                    rf.top_left.row <= r <= rf.bottom_right.row + 1,
                    rf.bottom_right.row < usize::MAX,
                    rf.top_left.col <= rf.bottom_right.col < usize::MAX,
                    f.data == FunctionData::RangeFunction(rf),
                    out@ == block_list(rf.top_left.row as int, r - 1, rf.top_left.col as int, rf.bottom_right.col as int),
                    forall|c: Cell| out@.contains(c) <==> (rf.top_left.row <= c.row < r
                        && rf.top_left.col <= c.col <= rf.bottom_right.col),
                decreases rf.bottom_right.row + 1 - r,
            {
                let mut k = rf.top_left.col;
                while k <= rf.bottom_right.col
                    invariant
                        rf.top_left.row <= r <= rf.bottom_right.row,
                        rf.bottom_right.row < usize::MAX,
                        rf.top_left.col <= rf.bottom_right.col < usize::MAX,
                        rf.top_left.col <= k <= rf.bottom_right.col + 1,
                        out@ == block_list(rf.top_left.row as int, r - 1, rf.top_left.col as int, rf.bottom_right.col as int)
                            + row_list(r as int, rf.top_left.col as int, rf.bottom_right.col as int).take(k - rf.top_left.col),
                        forall|c: Cell| out@.contains(c) <==> ((rf.top_left.row <= c.row < r
                            && rf.top_left.col <= c.col <= rf.bottom_right.col) || (c.row == r
                            && rf.top_left.col <= c.col < k)),
                    decreases rf.bottom_right.col + 1 - k,
                {
                    let ghost before = out@;
                    out.push(Cell { row: r, col: k });
                    assert forall|c: Cell| out@.contains(c) <==> (before.contains(c) || (c.row == r && c.col == k)) by {
                        if out@.contains(c) {
                            let j = choose|j: int| 0 <= j < out@.len() && out@[j] == c;
                            if j < before.len() {
                                assert(before[j] == c);
                            }
                        }
                        if before.contains(c) {
                            let j = choose|j: int| 0 <= j < before.len() && before[j] == c;
                            assert(out@[j] == c);
                        }
                        if c.row == r && c.col == k {
                            assert(c == (Cell { row: r, col: k }));
                            assert(out@[out@.len() - 1] == c);
                        }
                    }
                    assert forall|c: Cell| out@.contains(c) <==> ((rf.top_left.row <= c.row < r
                        && rf.top_left.col <= c.col <= rf.bottom_right.col) || (c.row == r
                        && rf.top_left.col <= c.col < k + 1)) by {
                        assert(before.contains(c) <==> ((rf.top_left.row <= c.row < r
                            && rf.top_left.col <= c.col <= rf.bottom_right.col) || (c.row == r
                            && rf.top_left.col <= c.col < k)));
                    }
                    assert(row_list(r as int, rf.top_left.col as int, rf.bottom_right.col as int).take(k + 1 - rf.top_left.col)
                        =~= row_list(r as int, rf.top_left.col as int, rf.bottom_right.col as int).take(k - rf.top_left.col)
                        .push(Cell { row: r, col: k }));
                    k += 1;
                }
                assert(row_list(r as int, rf.top_left.col as int, rf.bottom_right.col as int).take(rf.bottom_right.col + 1 - rf.top_left.col)
                    =~= row_list(r as int, rf.top_left.col as int, rf.bottom_right.col as int));
                r += 1;
            }
        },
        FunctionData::Value(_) => {},
    }
    out
}

/// `v` without any occurrence of `x`.
fn without(v: &Vec<(usize, usize)>, x: (usize, usize)) -> (r: Vec<(usize, usize)>)
    ensures
        r@ == remove_pair(v@, x),
        forall|y: (usize, usize)| r@.contains(y) <==> (v@.contains(y) && y != x),
        forall|k: int| 0 <= k < r@.len() ==> v@.contains(#[trigger] r@[k]),
{
    let mut out: Vec<(usize, usize)> = Vec::new();
    let mut i: usize = 0;
    while i < v.len()
        invariant
            i <= v.len(),
            out@ == remove_pair(v@.take(i as int), x),
            forall|y: (usize, usize)| out@.contains(y) <==> (v@.take(i as int).contains(y) && y != x),
            forall|k: int| 0 <= k < out@.len() ==> v@.contains(#[trigger] out@[k]),
        decreases v.len() - i,
    {
        let ghost before = out@;
        let e = v[i];
        if !(e.0 == x.0 && e.1 == x.1) {
            out.push(e);
        }
        assert(v@.take(i + 1) =~= v@.take(i as int).push(e));
        assert(v@.take(i + 1).drop_last() =~= v@.take(i as int));
        assert forall|y: (usize, usize)| out@.contains(y) <==> (v@.take(i + 1).contains(y) && y != x) by {
            if y == e {
                assert(v@.take(i + 1)[i as int] == y);
            }
            if v@.take(i as int).contains(y) {
                let j = choose|j: int| 0 <= j < i && v@.take(i as int)[j] == y;
                assert(v@.take(i + 1)[j] == y);
            }
            if v@.take(i + 1).contains(y) {
                let j = choose|j: int| 0 <= j <= i && #[trigger] v@.take(i + 1)[j] == y;
                if j < i {
                    assert(v@.take(i as int)[j] == y);
                }
            }
            if out@.contains(y) && !before.contains(y) {
                assert(y == e);
            }
            if before.contains(y) {
                let j = choose|j: int| 0 <= j < before.len() && before[j] == y;
                assert(out@[j] == y);
            }
            if e != x && y == e {
                assert(out@[out@.len() - 1] == y);
            }
        }
        i += 1;
    }
    assert(v@.take(v.len() as int) =~= v@);
    out
}

impl Backend {
    proof fn lemma_cell_at(&self, c: Cell)
        requires
            self.grid@.len() == self.rows,
            c.row < self.rows,
        ensures
            self.cell_at(c) == self.grid@[c.row as int]@[c.col as int],
    {
        self.lemma_cells();
    }

    /// Replaces the dependents list of `p`, leaving everything else as it was.
    fn set_dependents(&mut self, p: Cell, deps: Vec<(usize, usize)>)
        requires
            shape_ok(old(self).cells(), old(self).num_rows(), old(self).num_cols()),
            old(self).contains(p),
            forall|k: int| 0 <= k < deps@.len() ==> old(self).contains(cell_of(#[trigger] deps@[k])),
        ensures
            shape_ok(final(self).cells(), final(self).num_rows(), final(self).num_cols()),
            forall|c: Cell| final(self).contains(c) ==> same_but_deps(#[trigger] at(final(self).cells(), c), at(old(self).cells(), c)),
            forall|c: Cell| final(self).contains(c) && c != p ==> #[trigger] at(final(self).cells(), c) == at(old(self).cells(), c),
            final(self).cell_at(p).dependents == deps,
            final(self).num_rows() == old(self).num_rows(),
            final(self).num_cols() == old(self).num_cols(),
            final(self).pending_seconds() == old(self).pending_seconds(),
            final(self).side() == old(self).side(),
            final(self).cells() == old(self).cells().update(p.row as int,
                old(self).cells()[p.row as int].update(p.col as int, CellData { dependents: deps, ..old(self).cell_at(p) })),
    {
        proof {
            self.lemma_cells();
        }
        let ghost g0 = self.cells();
        self.grid[p.row][p.col].dependents = deps;
        proof {
            self.lemma_cells();
            let nd = CellData { dependents: deps, ..at(g0, p) };
            assert(self.cells() =~= g0.update(p.row as int, g0[p.row as int].update(p.col as int, nd)));
            assert forall|c: Cell| self.contains(c) implies #[trigger] self.cell_at(c) == (if c == p {
                nd
            } else {
                at(g0, c)
            }) by {
                if c.row == p.row && c.col != p.col {
                    assert(c != p);
                }
            }
            assert forall|c: Cell| in_grid(c, self.num_rows(), self.num_cols()) implies formula_ok(
                #[trigger] at(self.cells(), c).function, self.num_rows(), self.num_cols()) by {
                assert(formula_ok(at(g0, c).function, self.num_rows(), self.num_cols()));
            }
            assert forall|c: Cell, k: int| in_grid(c, self.num_rows(), self.num_cols()) && 0 <= k < at(self.cells(), c).dependents@.len()
                implies in_grid(cell_of(#[trigger] at(self.cells(), c).dependents@[k]), self.num_rows(), self.num_cols()) by {
                if c != p {
                    assert(self.contains(cell_of(at(g0, c).dependents@[k])));
                }
            }
            assert forall|r: int| 0 <= r < self.num_rows() implies (#[trigger] self.cells()[r]).len() == self.num_cols() by {
                assert(g0[r].len() == self.num_cols());
            }
            assert(self.cells().len() == self.num_rows());
            assert(self.num_rows() * self.num_cols() <= usize::MAX);
        }
    }
}

/// Whether `x` is listed in `v`.
fn pair_listed(v: &Vec<(usize, usize)>, x: (usize, usize)) -> (r: bool)
    ensures
        r == v@.contains(x),
{
    let mut i: usize = 0;
    while i < v.len()
        invariant
            i <= v.len(),
            forall|j: int| 0 <= j < i ==> v@[j] != x,
        decreases v.len() - i,
    {
        let e = v[i];
        if e.0 == x.0 && e.1 == x.1 {
            assert(v@[i as int] == x);
            return true;
        }
        i += 1;
    }
    false
}

/// `v` with `x` appended unless it is listed already.
fn with_added_once(v: &Vec<(usize, usize)>, x: (usize, usize)) -> (r: Vec<(usize, usize)>)
    ensures
        r@ == add_once(v@, x),
{
    let listed = pair_listed(v, x);
    let mut out: Vec<(usize, usize)> = Vec::new();
    let mut i: usize = 0;
    while i < v.len()
        invariant
            i <= v.len(),
            out@ == v@.take(i as int),
        decreases v.len() - i,
    {
        out.push(v[i]);
        assert(v@.take(i + 1) =~= v@.take(i as int).push(v@[i as int]));
        i += 1;
    }
    assert(v@.take(v.len() as int) =~= v@);
    if !listed {
        out.push(x);
    }
    out
}

impl Backend {
    /// Re-links `cell` in the dependency graph after its formula changed from
    /// `old_function` to the one it now holds: `cell` leaves the dependents of
    /// every cell `old_function` reads, then joins the dependents of every cell
    /// its current formula reads.
    pub fn update_graph(&mut self, cell: &Cell, old_function: &Function)
        requires
            shape_ok(old(self).cells(), old(self).num_rows(), old(self).num_cols()),
            old(self).contains(*cell),
            formula_ok(*old_function, old(self).num_rows(), old(self).num_cols()),
        ensures
            final(self).num_rows() == old(self).num_rows(),
            final(self).num_cols() == old(self).num_cols(),
            final(self).pending_seconds() == old(self).pending_seconds(),
            final(self).side() == old(self).side(),
            shape_ok(final(self).cells(), final(self).num_rows(), final(self).num_cols()),
            forall|c: Cell| final(self).contains(c) ==> same_but_deps(#[trigger] at(final(self).cells(), c), at(old(self).cells(), c)),
            forall|p: Cell, y: Cell| final(self).contains(p) && final(self).contains(y) ==>
                (#[trigger] edge(final(self).cells(), p, y) <==> if y == *cell {
                    references(old(self).cell_at(*cell).function, p) || (edge(old(self).cells(), p, y)
                        && !references(*old_function, p))
                } else {
                    edge(old(self).cells(), p, y)
                }),
            forall|p: Cell| final(self).contains(p) ==> #[trigger] at(final(self).cells(), p).dependents@
                == relinked(at(old(self).cells(), p).dependents@, pair_of(*cell), references(*old_function, p),
                    references(old(self).cell_at(*cell).function, p)),
            forall|p: Cell| final(self).contains(p) && at(old(self).cells(), p).dependents@.no_duplicates()
                ==> #[trigger] at(final(self).cells(), p).dependents@.no_duplicates(),
    {
        let ghost g0 = self.cells();
        let olds = referenced_cells(old_function);
        let x = (cell.row, cell.col);
        let mut i: usize = 0;
        while i < olds.len()
            invariant
                shape_ok(self.cells(), self.num_rows(), self.num_cols()),
                self.num_rows() == old(self).num_rows(),
                self.num_cols() == old(self).num_cols(),
                self.pending_seconds() == old(self).pending_seconds(),
                self.side() == old(self).side(),
                g0 == old(self).cells(),
                self.contains(*cell),
                x == pair_of(*cell),
                formula_ok(*old_function, self.num_rows(), self.num_cols()),
                forall|c: Cell| olds@.contains(c) <==> references(*old_function, c),
                i <= olds.len(),
                forall|c: Cell| self.contains(c) ==> same_but_deps(#[trigger] at(self.cells(), c), at(g0, c)),
                forall|p: Cell, y: Cell| self.contains(p) && self.contains(y) ==>
                    (#[trigger] edge(self.cells(), p, y) <==> (edge(g0, p, y) && !(y == *cell
                        && olds@.take(i as int).contains(p)))),
                forall|q: Cell| self.contains(q) ==> #[trigger] at(self.cells(), q).dependents@
                    == relinked(at(g0, q).dependents@, x, olds@.take(i as int).contains(q), false),
            decreases olds.len() - i,
        {
            let p = olds[i];
            assert(olds@.contains(p));
            proof {
                lemma_refs_in_grid(*old_function, p, self.num_rows(), self.num_cols());
            }
            proof {
                self.lemma_cell_at(p);
            }
            let nd = without(&self.grid[p.row][p.col].dependents, x);
            let ghost g1 = self.cells();
            self.set_dependents(p, nd);
            assert(olds@.take(i + 1) =~= olds@.take(i as int).push(p));
            assert forall|q: Cell, y: Cell| self.contains(q) && self.contains(y) implies
                (#[trigger] edge(self.cells(), q, y) <==> (edge(g0, q, y) && !(y == *cell
                    && olds@.take(i + 1).contains(q)))) by {
                assert(edge(g1, q, y) <==> (edge(g0, q, y) && !(y == *cell && olds@.take(i as int).contains(q))));
                if q != p {
                    assert(self.cell_at(q) == at(g1, q));
                }
                if olds@.take(i + 1).contains(q) && !olds@.take(i as int).contains(q) {
                    let j = choose|j: int| 0 <= j <= i && #[trigger] olds@.take(i + 1)[j] == q;
                    if j < i {
                        assert(olds@.take(i as int)[j] == q);
                    }
                    assert(q == p);
                }
                if olds@.take(i as int).contains(q) {
                    let j = choose|j: int| 0 <= j < i && #[trigger] olds@.take(i as int)[j] == q;
                    assert(olds@.take(i + 1)[j] == q);
                }
                if q == p {
                    assert(olds@.take(i + 1)[i as int] == q);
                    assert(pair_of(y) == x <==> y == *cell);
                }
            }
            assert forall|q: Cell| self.contains(q) implies #[trigger] at(self.cells(), q).dependents@
                == relinked(at(g0, q).dependents@, x, olds@.take(i + 1).contains(q), false) by {
                if q != p {
                    assert(at(self.cells(), q) == at(g1, q));
                    if olds@.take(i + 1).contains(q) {
                        let j = choose|j: int| 0 <= j <= i && #[trigger] olds@.take(i + 1)[j] == q;
                        if j < i {
                            assert(olds@.take(i as int)[j] == q);
                        }
                    }
                    if olds@.take(i as int).contains(q) {
                        let j = choose|j: int| 0 <= j < i && #[trigger] olds@.take(i as int)[j] == q;
                        assert(olds@.take(i + 1)[j] == q);
                    }
                } else {
                    assert(olds@.take(i + 1)[i as int] == q);
                    lemma_remove_pair(at(g0, q).dependents@, x);
                }
            }
            i += 1;
        }
        let ghost g_mid = self.cells();
        proof {
            self.lemma_cell_at(*cell);
            assert(olds@.take(olds.len() as int) =~= olds@);
        }
        let f = self.grid[cell.row][cell.col].function;
        assert(f == at(g0, *cell).function);
        let news = referenced_cells(&f);
        let mut k: usize = 0;
        while k < news.len()
            invariant
                shape_ok(self.cells(), self.num_rows(), self.num_cols()),
                self.num_rows() == old(self).num_rows(),
                self.num_cols() == old(self).num_cols(),
                self.pending_seconds() == old(self).pending_seconds(),
                self.side() == old(self).side(),
                self.contains(*cell),
                x == pair_of(*cell),
                formula_ok(f, self.num_rows(), self.num_cols()),
                forall|c: Cell| news@.contains(c) <==> references(f, c),
                k <= news.len(),
                forall|c: Cell| self.contains(c) ==> same_but_deps(#[trigger] at(self.cells(), c), at(g0, c)),
                forall|p: Cell, y: Cell| self.contains(p) && self.contains(y) ==>
                    (#[trigger] edge(self.cells(), p, y) <==> (edge(g_mid, p, y) || (y == *cell
                        && news@.take(k as int).contains(p)))),
                forall|q: Cell| self.contains(q) ==> #[trigger] at(self.cells(), q).dependents@
                    == relinked(at(g0, q).dependents@, x, references(*old_function, q), news@.take(k as int).contains(q)),
                forall|c: Cell| olds@.contains(c) <==> references(*old_function, c),
            decreases news.len() - k,
        {
            let p = news[k];
            assert(news@.contains(p));
            proof {
                lemma_refs_in_grid(f, p, self.num_rows(), self.num_cols());
            }
            proof {
                self.lemma_cell_at(p);
            }
            let nd = with_added_once(&self.grid[p.row][p.col].dependents, x);
            let ghost g1 = self.cells();
            self.set_dependents(p, nd);
            assert(news@.take(k + 1) =~= news@.take(k as int).push(p));
            assert forall|q: Cell, y: Cell| self.contains(q) && self.contains(y) implies
                (#[trigger] edge(self.cells(), q, y) <==> (edge(g_mid, q, y) || (y == *cell
                    && news@.take(k + 1).contains(q)))) by {
                assert(edge(g1, q, y) <==> (edge(g_mid, q, y) || (y == *cell && news@.take(k as int).contains(q))));
                if q != p {
                    assert(self.cell_at(q) == at(g1, q));
                }
                if news@.take(k + 1).contains(q) && !news@.take(k as int).contains(q) {
                    let j = choose|j: int| 0 <= j <= k && #[trigger] news@.take(k + 1)[j] == q;
                    if j < k {
                        assert(news@.take(k as int)[j] == q);
                    }
                    assert(q == p);
                }
                if news@.take(k as int).contains(q) {
                    let j = choose|j: int| 0 <= j < k && #[trigger] news@.take(k as int)[j] == q;
                    assert(news@.take(k + 1)[j] == q);
                }
                if q == p {
                    assert(news@.take(k + 1)[k as int] == q);
                    assert(pair_of(y) == x <==> y == *cell);
                    let d = self.cell_at(q).dependents@;
                    let d0 = at(g1, q).dependents@;
                    assert(d == add_once(d0, x));
                    lemma_add_once(d0, x);
                }
            }
            assert forall|q: Cell| self.contains(q) implies #[trigger] at(self.cells(), q).dependents@
                == relinked(at(g0, q).dependents@, x, references(*old_function, q), news@.take(k + 1).contains(q)) by {
                if q != p {
                    assert(at(self.cells(), q) == at(g1, q));
                    if news@.take(k + 1).contains(q) {
                        let j = choose|j: int| 0 <= j <= k && #[trigger] news@.take(k + 1)[j] == q;
                        if j < k {
                            assert(news@.take(k as int)[j] == q);
                        }
                    }
                    if news@.take(k as int).contains(q) {
                        let j = choose|j: int| 0 <= j < k && #[trigger] news@.take(k as int)[j] == q;
                        assert(news@.take(k + 1)[j] == q);
                    }
                } else {
                    assert(news@.take(k + 1)[k as int] == q);
                    let t = if references(*old_function, q) { remove_pair(at(g0, q).dependents@, x) } else { at(g0, q).dependents@ };
                    lemma_add_once(t, x);
                }
            }
            k += 1;
        }
        assert(news@.take(news.len() as int) =~= news@);
        proof {
            assert forall|q: Cell| self.contains(q) && at(g0, q).dependents@.no_duplicates()
                implies #[trigger] at(self.cells(), q).dependents@.no_duplicates() by {
                let d0 = at(g0, q).dependents@;
                lemma_remove_pair(d0, x);
                let t = if references(*old_function, q) { remove_pair(d0, x) } else { d0 };
                lemma_add_once(t, x);
            }
        }
    }
}

fn list_has(v: &Vec<Cell>, c: Cell) -> (r: bool)
    ensures
        r == v@.contains(c),
{
    let mut i: usize = 0;
    while i < v.len()
        invariant
            i <= v.len(),
            forall|j: int| 0 <= j < i ==> v@[j] != c,
        decreases v.len() - i,
    {
        if v[i] == c {
            assert(v@[i as int] == c);
            return true;
        }
        i += 1;
    }
    false
}

impl Backend {
    /// Marks `d` and pushes it on the stack unless it is marked already;
    /// answers `true` instead when `d` is a target.
    fn visit(&self, seen: &mut Vec<bool>, stack: &mut Vec<Cell>, d: Cell, seeds: &Vec<Cell>, targets: &Vec<Cell>) -> (found: bool)
        requires
            shape_ok(self.cells(), self.num_rows(), self.num_cols()),
            marks_ok(self.cells(), self.num_rows(), self.num_cols(), old(seen)@, seeds@, targets@),
            stack_ok(self.num_rows(), self.num_cols(), old(seen)@, old(stack)@),
            self.contains(d),
            exists|a: Cell| seeds@.contains(a) && reaches(self.cells(), a, d),
        ensures
            found ==> reaches_some(self.cells(), seeds@, targets@),
            !found ==> {
                &&& marks_ok(self.cells(), self.num_rows(), self.num_cols(), final(seen)@, seeds@, targets@)
                &&& stack_ok(self.num_rows(), self.num_cols(), final(seen)@, final(stack)@)
                &&& final(seen)@[flat_index(d, self.num_cols())]
                &&& old(seen)@[flat_index(d, self.num_cols())] ==> final(seen)@ == old(seen)@ && final(stack)@ == old(stack)@
                &&& !old(seen)@[flat_index(d, self.num_cols())] ==> final(seen)@ == old(seen)@.update(flat_index(d, self.num_cols()), true)
                    && final(stack)@ == old(stack)@.push(d)
                    && count_false(final(seen)@) + 1 == count_false(old(seen)@)
            },
    {
        let ghost g = self.cells();
        let ghost rows = self.num_rows();
        let ghost cols = self.num_cols();
        proof {
            lemma_flat_index(d, d, rows, cols);
        }
        let i = d.row * self.cols + d.col;
        if seen[i] {
            return false;
        }
        if list_has(targets, d) {
            return true;
        }
        let ghost before = seen@;
        let ghost stack0 = stack@;
        seen.set(i, true);
        stack.push(d);
        proof {
            lemma_count_false_set(before, i as int);
            assert forall|x: Cell| in_grid(x, rows, cols) && #[trigger] seen@[flat_index(x, cols)] implies !targets@.contains(x)
                && exists|a: Cell| seeds@.contains(a) && reaches(g, a, x) by {
                lemma_flat_index(x, d, rows, cols);
            }
            assert forall|k: int| 0 <= k < stack@.len() implies in_grid(#[trigger] stack@[k], rows, cols)
                && seen@[flat_index(stack@[k], cols)] by {
                if k < stack@.len() - 1 {
                    assert(stack@[k] == stack0[k]);
                    lemma_flat_index(stack@[k], d, rows, cols);
                }
            }
        }
        false
    }

    /// Visits every seed.
    fn visit_seeds(&self, seen: &mut Vec<bool>, stack: &mut Vec<Cell>, seeds: &Vec<Cell>, targets: &Vec<Cell>) -> (found: bool)
        requires
            shape_ok(self.cells(), self.num_rows(), self.num_cols()),
            forall|k: int| 0 <= k < seeds@.len() ==> self.contains(#[trigger] seeds@[k]),
            old(seen)@.len() == self.num_rows() * self.num_cols(),
            forall|j: int| 0 <= j < old(seen)@.len() ==> !(#[trigger] old(seen)@[j]),
            old(stack)@.len() == 0,
        ensures
            found ==> reaches_some(self.cells(), seeds@, targets@),
            !found ==> {
                &&& marks_ok(self.cells(), self.num_rows(), self.num_cols(), final(seen)@, seeds@, targets@)
                &&& stack_ok(self.num_rows(), self.num_cols(), final(seen)@, final(stack)@)
                &&& closed_but(self.cells(), self.num_rows(), self.num_cols(), final(seen)@, final(stack)@, None)
                &&& forall|k: int| 0 <= k < seeds@.len() ==> final(seen)@[flat_index(#[trigger] seeds@[k], self.num_cols())]
            },
    {
        let ghost g = self.cells();
        let ghost rows = self.num_rows();
        let ghost cols = self.num_cols();
        proof {
            assert forall|c: Cell| in_grid(c, rows, cols) implies !(#[trigger] seen@[flat_index(c, cols)]) by {
                lemma_flat_index(c, c, rows, cols);
            }
        }
        let mut s: usize = 0;
        while s < seeds.len()
            invariant
                g == self.cells(),
                rows == self.num_rows(),
                cols == self.num_cols(),
                shape_ok(g, rows, cols),
                forall|k: int| 0 <= k < seeds@.len() ==> in_grid(#[trigger] seeds@[k], rows, cols),
                marks_ok(g, rows, cols, seen@, seeds@, targets@),
                stack_ok(rows, cols, seen@, stack@),
                closed_but(g, rows, cols, seen@, stack@, None),
                s <= seeds.len(),
                forall|k: int| 0 <= k < s ==> seen@[flat_index(#[trigger] seeds@[k], cols)],
            decreases seeds.len() - s,
        {
            let c = seeds[s];
            proof {
                assert(seeds@.contains(c));
                lemma_reaches_self(g, c);
            }
            let ghost seen0 = seen@;
            let ghost stack0 = stack@;
            if self.visit(seen, stack, c, seeds, targets) {
                return true;
            }
            proof {
                assert(seen@[flat_index(c, cols)]);
                assert(seen0[flat_index(c, cols)] ==> seen@ == seen0);
                assert(!seen0[flat_index(c, cols)] ==> seen@ == seen0.update(flat_index(c, cols), true));
                assert forall|k: int| 0 <= k < s + 1 implies seen@[flat_index(#[trigger] seeds@[k], cols)] by {
                    lemma_flat_index(seeds@[k], c, rows, cols);
                    if k < s {
                        assert(seen0[flat_index(seeds@[k], cols)]);
                        if flat_index(seeds@[k], cols) != flat_index(c, cols) && !seen0[flat_index(c, cols)] {
                            assert(seen@[flat_index(seeds@[k], cols)] == seen0[flat_index(seeds@[k], cols)]);
                        }
                    } else {
                        assert(seeds@[k] == c);
                    }
                }
                assert forall|x: Cell, e: Cell| in_grid(x, rows, cols) && seen@[flat_index(x, cols)] && !stack@.contains(x)
                    && None::<Cell> != Some(x) && #[trigger] edge(g, x, e) implies seen@[flat_index(e, cols)] by {
                    lemma_flat_index(x, c, rows, cols);
                    lemma_edge_in_grid(g, rows, cols, x, e);
                    lemma_flat_index(e, c, rows, cols);
                    if !seen0[flat_index(c, cols)] {
                        if x == c {
                            assert(stack@[stack@.len() - 1] == x);
                        }
                        if stack0.contains(x) {
                            let j = choose|j: int| 0 <= j < stack0.len() && stack0[j] == x;
                            assert(stack@[j] == x);
                        }
                    }
                }
            }
            s += 1;
        }
        false
    }

    /// Visits every successor of the popped cell `c`.
    fn expand(&self, seen: &mut Vec<bool>, stack: &mut Vec<Cell>, c: Cell, seeds: &Vec<Cell>, targets: &Vec<Cell>) -> (found: bool)
        requires
            shape_ok(self.cells(), self.num_rows(), self.num_cols()),
            marks_ok(self.cells(), self.num_rows(), self.num_cols(), old(seen)@, seeds@, targets@),
            stack_ok(self.num_rows(), self.num_cols(), old(seen)@, old(stack)@),
            closed_but(self.cells(), self.num_rows(), self.num_cols(), old(seen)@, old(stack)@, Some(c)),
            self.contains(c),
            old(seen)@[flat_index(c, self.num_cols())],
        ensures
            found ==> reaches_some(self.cells(), seeds@, targets@),
            !found ==> {
                &&& marks_ok(self.cells(), self.num_rows(), self.num_cols(), final(seen)@, seeds@, targets@)
                &&& stack_ok(self.num_rows(), self.num_cols(), final(seen)@, final(stack)@)
                &&& closed_but(self.cells(), self.num_rows(), self.num_cols(), final(seen)@, final(stack)@, None)
                &&& forall|x: Cell| self.contains(x) && old(seen)@[flat_index(x, self.num_cols())]
                    ==> #[trigger] final(seen)@[flat_index(x, self.num_cols())]
                &&& count_false(final(seen)@) <= count_false(old(seen)@)
                &&& count_false(final(seen)@) == count_false(old(seen)@) ==> final(stack)@ == old(stack)@
            },
    {
        let ghost g = self.cells();
        let ghost rows = self.num_rows();
        let ghost cols = self.num_cols();
        let ghost count0 = count_false(seen@);
        let ghost seen_start = seen@;
        let ghost stack_start = stack@;
        proof {
            self.lemma_cell_at(c);
        }
        let deps = &self.grid[c.row][c.col].dependents;
        let mut k: usize = 0;
        while k < deps.len()
            invariant
                g == self.cells(),
                rows == self.num_rows(),
                cols == self.num_cols(),
                shape_ok(g, rows, cols),
                in_grid(c, rows, cols) && seen@[flat_index(c, cols)],
                deps@ == at(g, c).dependents@,
                k <= deps@.len(),
                count_false(seen@) <= count0,
                count0 == count_false(seen_start),
                count_false(seen@) == count0 ==> stack@ == stack_start,
                forall|x: Cell| in_grid(x, rows, cols) && seen_start[flat_index(x, cols)] ==> #[trigger] seen@[flat_index(x, cols)],
                marks_ok(g, rows, cols, seen@, seeds@, targets@),
                stack_ok(rows, cols, seen@, stack@),
                closed_but(g, rows, cols, seen@, stack@, Some(c)),
                forall|j: int| 0 <= j < k ==> seen@[flat_index(cell_of(#[trigger] deps@[j]), cols)],
            decreases deps@.len() - k,
        {
            let (dr, dc) = deps[k];
            let d = Cell { row: dr, col: dc };
            assert(deps@[k as int] == pair_of(d));
            assert(edge(g, c, d));
            proof {
                lemma_edge_in_grid(g, rows, cols, c, d);
                let a = choose|a: Cell| seeds@.contains(a) && reaches(g, a, c);
                lemma_reaches_step(g, a, c, d);
            }
            let ghost seen0 = seen@;
            let ghost stack1 = stack@;
            if self.visit(seen, stack, d, seeds, targets) {
                return true;
            }
            proof {
                if !seen0[flat_index(d, cols)] {
                    assert forall|x: Cell| in_grid(x, rows, cols) && seen_start[flat_index(x, cols)] implies #[trigger] seen@[flat_index(x, cols)] by {
                        lemma_flat_index(x, d, rows, cols);
                    }
                    assert(seen@[flat_index(c, cols)]) by {
                        lemma_flat_index(c, d, rows, cols);
                    }
                    assert forall|x: Cell, e: Cell| in_grid(x, rows, cols) && seen@[flat_index(x, cols)] && !stack@.contains(x)
                        && Some(c) != Some(x) && #[trigger] edge(g, x, e) implies seen@[flat_index(e, cols)] by {
                        lemma_flat_index(x, d, rows, cols);
                        lemma_edge_in_grid(g, rows, cols, x, e);
                        lemma_flat_index(e, d, rows, cols);
                        if x == d {
                            assert(stack@[stack@.len() - 1] == x);
                        }
                        if stack1.contains(x) {
                            let j = choose|j: int| 0 <= j < stack1.len() && stack1[j] == x;
                            assert(stack@[j] == x);
                        }
                    }
                    assert forall|j: int| 0 <= j < k implies seen@[flat_index(cell_of(#[trigger] deps@[j]), cols)] by {
                        assert(edge(g, c, cell_of(deps@[j]))) by {
                            assert(pair_of(cell_of(deps@[j])) == deps@[j]);
                        }
                        lemma_edge_in_grid(g, rows, cols, c, cell_of(deps@[j]));
                        lemma_flat_index(cell_of(deps@[j]), d, rows, cols);
                    }
                }
                assert(cell_of(deps@[k as int]) == d);
            }
            k += 1;
        }
        proof {
            assert forall|x: Cell, e: Cell| in_grid(x, rows, cols) && seen@[flat_index(x, cols)] && !stack@.contains(x)
                && None::<Cell> != Some(x) && #[trigger] edge(g, x, e) implies seen@[flat_index(e, cols)] by {
                if x == c {
                    let j = choose|j: int| 0 <= j < deps@.len() && deps@[j] == pair_of(e);
                    assert(cell_of(deps@[j]) == e);
                } else {
                    assert(Some(c) != Some(x));
                }
            }
        }
        false
    }

    /// Whether some cell of `targets` is reachable from some cell of `seeds`
    /// along dependents edges (a seed that is a target counts), by a
    /// depth-first search that visits each cell at most once.
    pub fn reaches_any(&self, seeds: &Vec<Cell>, targets: &Vec<Cell>) -> (r: bool)
        requires
            shape_ok(self.cells(), self.num_rows(), self.num_cols()),
            forall|k: int| 0 <= k < seeds@.len() ==> self.contains(#[trigger] seeds@[k]),
        ensures
            r == reaches_some(self.cells(), seeds@, targets@),
    {
        let ghost g = self.cells();
        let ghost rows = self.num_rows();
        let ghost cols = self.num_cols();
        proof {
            self.lemma_cells();
        }
        let n: usize = self.rows * self.cols;
        let mut seen: Vec<bool> = Vec::new();
        let mut z: usize = 0;
        while z < n
            invariant
                z <= n,
                seen@.len() == z,
                forall|j: int| 0 <= j < z ==> !(#[trigger] seen@[j]),
            decreases n - z,
        {
            seen.push(false);
            z += 1;
        }
        let mut stack: Vec<Cell> = Vec::new();
        if self.visit_seeds(&mut seen, &mut stack, seeds, targets) {
            return true;
        }
        while stack.len() > 0
            invariant
                g == self.cells(),
                rows == self.num_rows(),
                cols == self.num_cols(),
                shape_ok(g, rows, cols),
                forall|k: int| 0 <= k < seeds@.len() ==> in_grid(#[trigger] seeds@[k], rows, cols)
                    && seen@[flat_index(seeds@[k], cols)],
                marks_ok(g, rows, cols, seen@, seeds@, targets@),
                stack_ok(rows, cols, seen@, stack@),
                closed_but(g, rows, cols, seen@, stack@, None),
            decreases count_false(seen@), stack@.len(),
        {
            let ghost st = stack@;
            let c = stack.pop().unwrap();
            proof {
                assert(c == st.last() && stack@ == st.drop_last());
                assert(st[st.len() - 1] == c);
                assert forall|k: int| 0 <= k < stack@.len() implies in_grid(#[trigger] stack@[k], rows, cols)
                    && seen@[flat_index(stack@[k], cols)] by {
                    assert(stack@[k] == st[k]);
                }
                assert forall|x: Cell, e: Cell| in_grid(x, rows, cols) && seen@[flat_index(x, cols)] && !stack@.contains(x)
                    && Some(c) != Some(x) && #[trigger] edge(g, x, e) implies seen@[flat_index(e, cols)] by {
                    if st.contains(x) {
                        let j = choose|j: int| 0 <= j < st.len() && st[j] == x;
                        if j < st.len() - 1 {
                            assert(stack@[j] == x);
                        }
                    }
                }
            }
            let ghost seen0 = seen@;
            if self.expand(&mut seen, &mut stack, c, seeds, targets) {
                return true;
            }
            proof {
                if count_false(seen@) == count_false(seen0) {
                    assert(stack@.len() < st.len());
                }
            }
        }
        proof {
            lemma_search_done(g, rows, cols, seen@, seeds@, targets@);
        }
        false
    }
}


impl Backend {
    /// Stores a computed result in cell `c`.
    fn set_result(&mut self, c: Cell, value: i32, error: CellError)
        requires
            old(self).structure_ok(),
            old(self).contains(c),
        ensures
            final(self).structure_ok(),
            final(self).num_rows() == old(self).num_rows(),
            final(self).num_cols() == old(self).num_cols(),
            final(self).pending_seconds() == old(self).pending_seconds(),
            final(self).side() == old(self).side(),
            same_structure(old(self).cells(), final(self).cells(), old(self).num_rows(), old(self).num_cols()),
            final(self).cell_at(c) == (CellData { value, error, ..old(self).cell_at(c) }),
            forall|x: Cell| final(self).contains(x) && x != c ==> #[trigger] at(final(self).cells(), x) == at(old(self).cells(), x),
    {
        proof {
            self.lemma_cells();
        }
        let ghost g0 = self.cells();
        self.grid[c.row][c.col].value = value;
        self.grid[c.row][c.col].error = error;
        proof {
            self.lemma_cells();
            let nd = CellData { value, error, ..at(g0, c) };
            assert(self.cells() =~~= g0.update(c.row as int, g0[c.row as int].update(c.col as int, nd)));
            assert forall|x: Cell| self.contains(x) implies #[trigger] self.cell_at(x) == (if x == c {
                nd
            } else {
                at(g0, x)
            }) by {
                if x.row == c.row && x.col != c.col {
                    assert(x != c);
                }
            }
            assert forall|r: int| 0 <= r < self.num_rows() implies (#[trigger] self.cells()[r]).len() == g0[r].len() by {
            }
            lemma_wf_transfer(g0, self.cells(), self.num_rows(), self.num_cols());
        }
    }

    /// Adds the delay that a `SLEEP` formula evaluating to `value` asks for.
    fn note_sleep(&mut self, f: &Function, value: i32, error: CellError)
        ensures
            final(self).cells() == old(self).cells(),
            final(self).num_rows() == old(self).num_rows(),
            final(self).num_cols() == old(self).num_cols(),
            final(self).pending_seconds() == add_capped(old(self).pending_seconds(), sleep_seconds(*f, value, error)),
            final(self).side() == old(self).side(),
    {
        if let FunctionData::SleepValue(_) = f.data {
            self.add_delay(value, error);
        }
    }

    /// Adds `value` seconds of delay when `value` is positive and `error` is
    /// `NoError`, capped at `u64::MAX`.
    fn add_delay(&mut self, value: i32, error: CellError)
        ensures
            final(self).cells() == old(self).cells(),
            final(self).num_rows() == old(self).num_rows(),
            final(self).num_cols() == old(self).num_cols(),
            final(self).pending_seconds() == add_capped(old(self).pending_seconds(),
                if error == CellError::NoError && value > 0 { value as int } else { 0 }),
            final(self).side() == old(self).side(),
    {
        if error == CellError::NoError && value > 0 {
            let v = value as u64;
            if self.pending_sleep <= u64::MAX - v {
                self.pending_sleep = self.pending_sleep + v;
            } else {
                self.pending_sleep = u64::MAX;
            }
        }
    }

    /// `SLEEP(operand)`: the operand's value, or its cell's error unchanged;
    /// a positive value asks for that many seconds of delay, which the caller
    /// performs after `take_pending_sleep`.
    pub fn sleep_function(&mut self, operand: &Operand) -> (r: Result<i32, CellError>)
        requires
            old(self).structure_ok(),
            operand_in_grid(*operand, old(self).num_rows(), old(self).num_cols()),
        ensures
            r == operand_result(old(self).cells(), *operand),
            final(self).pending_seconds() == add_capped(old(self).pending_seconds(), match r {
                Ok(v) => if v > 0 { v as int } else { 0 },
                Err(_) => 0,
            }),
            final(self).cells() == old(self).cells(),
            final(self).num_rows() == old(self).num_rows(),
            final(self).num_cols() == old(self).num_cols(),
            final(self).side() == old(self).side(),
            final(self).structure_ok() == old(self).structure_ok(),
            final(self).wf() == old(self).wf(),
    {
        let r = self.get_operand_value(operand);
        match r {
            Ok(v) => self.add_delay(v, CellError::NoError),
            Err(_) => {},
        }
        r
    }

    /// Seconds of delay that `SLEEP` formulas evaluated since the last call
    /// asked for; the count starts again from zero.
    pub fn take_pending_sleep(&mut self) -> (r: u64)
        ensures
            r == old(self).pending_seconds(),
            final(self).pending_seconds() == 0,
            final(self).side() == old(self).side(),
            final(self).cells() == old(self).cells(),
            final(self).num_rows() == old(self).num_rows(),
            final(self).num_cols() == old(self).num_cols(),
    {
        let r = self.pending_sleep;
        self.pending_sleep = 0;
        r
    }
}

impl Backend {
    /// Recomputes flagged cell `x` after every flagged cell it reads, each
    /// of those at most once; `stack` holds the cells whose recomputation is
    /// under way, each read by the one before it.
    fn settle(&mut self, x: Cell, root: Cell, flags: &Vec<bool>, done: &mut Vec<bool>, active: &mut Vec<bool>, g0: Ghost<Seq<Seq<CellData>>>, stack: Ghost<Seq<Cell>>, budget: Ghost<nat>)
        requires
            budget@ == count_false(old(done)@) + count_false(old(active)@),
            old(self).structure_ok(),
            cells_wf(g0@, old(self).num_rows(), old(self).num_cols()),
            graph_consistent(g0@, old(self).num_rows(), old(self).num_cols()),
            acyclic(g0@, old(self).num_rows(), old(self).num_cols()),
            same_structure(g0@, old(self).cells(), old(self).num_rows(), old(self).num_cols()),
            old(self).contains(x),
            old(self).contains(root),
            progress_ok(g0@, old(self).cells(), old(self).num_rows(), old(self).num_cols(), root, flags@, old(done)@),
            old(active)@.len() == old(self).num_rows() * old(self).num_cols(),
            forall|c: Cell| old(self).contains(c) ==> (old(active)@[flat_index(c, old(self).num_cols())] <==> stack@.contains(c)),
            forall|k: int| 0 <= k < stack@.len() ==> old(self).contains(#[trigger] stack@[k])
                && !old(done)@[flat_index(stack@[k], old(self).num_cols())],
            read_chain(g0@, stack@),
            stack@.len() > 0 ==> edge(g0@, x, stack@.last()),
            flags@[flat_index(x, old(self).num_cols())],
            !old(done)@[flat_index(x, old(self).num_cols())],
            !old(active)@[flat_index(x, old(self).num_cols())],
        ensures
            final(self).structure_ok(),
            final(self).num_rows() == old(self).num_rows(),
            final(self).num_cols() == old(self).num_cols(),
            final(self).pending_seconds() >= old(self).pending_seconds(),
            final(self).side() == old(self).side(),
            same_structure(g0@, final(self).cells(), old(self).num_rows(), old(self).num_cols()),
            progress_ok(g0@, final(self).cells(), old(self).num_rows(), old(self).num_cols(), root, flags@, final(done)@),
            final(active)@ == old(active)@,
            final(done)@[flat_index(x, old(self).num_cols())],
            forall|c: Cell| old(self).contains(c) && old(done)@[flat_index(c, old(self).num_cols())]
                ==> #[trigger] final(done)@[flat_index(c, old(self).num_cols())],
            forall|k: int| 0 <= k < stack@.len() ==> !final(done)@[flat_index(#[trigger] stack@[k], old(self).num_cols())],
            count_false(final(done)@) < count_false(old(done)@),
        decreases budget@,
    {
        let ghost rows = self.num_rows();
        let ghost cols = self.num_cols();
        let ghost done0 = done@;
        let ghost active0 = active@;
        proof {
            self.lemma_cells();
            lemma_flat_index(x, x, rows, cols);
        }
        let ix = x.row * self.cols + x.col;
        active.set(ix, true);
        let ghost st = stack@.push(x);
        proof {
            lemma_count_false_set(active0, ix as int);
            assert forall|c: Cell| in_grid(c, rows, cols) implies (active@[flat_index(c, cols)] <==> st.contains(c)) by {
                lemma_flat_index(c, x, rows, cols);
                if stack@.contains(c) {
                    let j = choose|j: int| 0 <= j < stack@.len() && stack@[j] == c;
                    assert(st[j] == c);
                }
                if st.contains(c) && c != x {
                    let j = choose|j: int| 0 <= j < st.len() && st[j] == c;
                    assert(stack@[j] == c);
                }
                if c == x {
                    assert(st[st.len() - 1] == c);
                }
            }
            assert forall|k: int| 0 <= k < st.len() - 1 implies edge(g0@, #[trigger] st[k + 1], st[k]) by {
                if k < stack@.len() - 1 {
                    assert(st[k + 1] == stack@[k + 1] && st[k] == stack@[k]);
                }
            }
            self.lemma_cell_at(x);
        }
        let f = self.grid[x.row][x.col].function;
        assert(f == at(g0@, x).function);
        let refs = referenced_cells(&f);
        let mut k: usize = 0;
        while k < refs.len()
            invariant
                self.structure_ok(),
                rows == self.num_rows(),
                cols == self.num_cols(),
                self.num_rows() == old(self).num_rows(),
                self.num_cols() == old(self).num_cols(),
                self.pending_seconds() >= old(self).pending_seconds(),
                self.side() == old(self).side(),
                cells_wf(g0@, rows, cols),
                graph_consistent(g0@, rows, cols),
                acyclic(g0@, rows, cols),
                same_structure(g0@, self.cells(), rows, cols),
                in_grid(x, rows, cols),
                in_grid(root, rows, cols),
                f == at(g0@, x).function,
                formula_ok(f, rows, cols),
                forall|c: Cell| refs@.contains(c) <==> references(f, c),
                k <= refs@.len(),
                progress_ok(g0@, self.cells(), rows, cols, root, flags@, done@),
                active@ == active0.update(flat_index(x, cols), true),
                done0 == old(done)@,
                active0 == old(active)@,
                budget@ == count_false(done0) + count_false(active0),
                active@.len() == rows * cols,
                count_false(active@) + 1 == count_false(active0),
                forall|c: Cell| in_grid(c, rows, cols) ==> (active@[flat_index(c, cols)] <==> st.contains(c)),
                st == stack@.push(x),
                read_chain(g0@, st),
                flags@[flat_index(x, cols)],
                !done@[flat_index(x, cols)],
                forall|j: int| 0 <= j < stack@.len() ==> in_grid(#[trigger] stack@[j], rows, cols)
                    && !done@[flat_index(stack@[j], cols)],
                forall|c: Cell| in_grid(c, rows, cols) && done0[flat_index(c, cols)] ==> #[trigger] done@[flat_index(c, cols)],
                count_false(done@) <= count_false(done0),
                forall|j: int| 0 <= j < k && flags@[flat_index(#[trigger] refs@[j], cols)] ==> done@[flat_index(refs@[j], cols)],
            decreases refs@.len() - k,
        {
            let p = refs[k];
            assert(refs@.contains(p));
            proof {
                lemma_refs_in_grid(f, p, rows, cols);
                lemma_flat_index(p, x, rows, cols);
            }
            let ip = p.row * self.cols + p.col;
            if flags[ip] && !done[ip] {
                if active[ip] {
                    proof {
                        // `p` is under way, so `x` reaches it; `p` is read by `x`: a cycle
                        assert(active@[flat_index(p, cols)]);
                        assert(st.contains(p));
                        let j = choose|j: int| 0 <= j < st.len() && st[j] == p;
                        lemma_chain_reaches(g0@, st, j);
                        assert(st.last() == x);
                        assert(edge(g0@, p, x) && reaches(g0@, x, p));
                        assert(reaches_strictly(g0@, p, p));
                        assert(false);
                    }
                } else {
                    let ghost dprev = done@;
                    proof {
                        assert(edge(g0@, p, x));
                        assert(st.last() == x);
                        assert forall|j: int| 0 <= j < st.len() implies in_grid(#[trigger] st[j], rows, cols)
                            && !done@[flat_index(st[j], cols)] by {
                            if j < stack@.len() {
                                assert(st[j] == stack@[j]);
                            }
                        }
                    }
                    assert(count_false(done@) + count_false(active@) < count_false(done0) + count_false(active0));
                    let ghost budget_p = (count_false(done@) + count_false(active@)) as nat;
                    assert(done0 == old(done)@ && active0 == old(active)@);
                    assert(budget_p < budget@);
                    self.settle(p, root, flags, done, active, g0, Ghost(st), Ghost(budget_p));
                    proof {
                        assert forall|c: Cell| in_grid(c, rows, cols) && done0[flat_index(c, cols)] implies #[trigger] done@[flat_index(c, cols)] by {
                            assert(dprev[flat_index(c, cols)]);
                        }
                        assert forall|j: int| 0 <= j < stack@.len() implies in_grid(#[trigger] stack@[j], rows, cols)
                            && !done@[flat_index(stack@[j], cols)] by {
                            assert(st[j] == stack@[j]);
                        }
                        assert(!done@[flat_index(x, cols)]) by {
                            assert(st[st.len() - 1] == x);
                        }
                    }
                }
            }
            proof {
                assert forall|j: int| 0 <= j < k + 1 && flags@[flat_index(#[trigger] refs@[j], cols)] implies done@[flat_index(refs@[j], cols)] by {
                    if j < k {
                        lemma_refs_in_grid(f, refs@[j], rows, cols);
                    }
                }
            }
            k += 1;
        }
        // every flagged cell that `x` reads is recomputed
        proof {
            assert forall|p: Cell| in_grid(p, rows, cols) && references(f, p) && flags@[flat_index(p, cols)]
                implies done@[flat_index(p, cols)] by {
                assert(refs@.contains(p));
                let j = choose|j: int| 0 <= j < refs@.len() && refs@[j] == p;
            }
            if references(f, x) {
                assert(edge(g0@, x, x));
                lemma_reaches_self(g0@, x);
                assert(reaches_strictly(g0@, x, x));
            }
            self.lemma_cell_at(x);
        }
        let (v, e) = self.evaluate_expression(&f);
        let ghost g1 = self.cells();
        self.set_result(x, v, e);
        let ghost g2 = self.cells();
        self.note_sleep(&f, v, e);
        let ghost dprev = done@;
        done.set(ix, true);
        active.set(ix, false);
        proof {
            lemma_same_structure_trans(g0@, g1, self.cells(), rows, cols);
            lemma_count_false_set(dprev, ix as int);
            assert(active@ =~= active0);
            lemma_eval_one_changed(g1, g2, rows, cols, x, f);
            let g = self.cells();
            assert forall|c: Cell| in_grid(c, rows, cols) && #[trigger] done@[flat_index(c, cols)] implies flags@[flat_index(c, cols)]
                && settled_at(g, c) by {
                lemma_flat_index(c, x, rows, cols);
                if c == x {
                    assert(at(g, x).function == f);
                } else {
                    assert(dprev[flat_index(c, cols)]);
                    assert(settled_at(g1, c));
                    let fc = at(g0@, c).function;
                    assert(at(g1, c).function == fc);
                    if references(fc, x) {
                        assert(done@[flat_index(x, cols)]);
                        assert(dprev[flat_index(x, cols)]);
                    }
                    assert(formula_ok(fc, rows, cols));
                    lemma_eval_one_changed(g1, g2, rows, cols, x, fc);
                    assert(at(g2, c) == at(g1, c));
                }
            }
            assert forall|c: Cell, p: Cell| in_grid(c, rows, cols) && in_grid(p, rows, cols) && done@[flat_index(c, cols)]
                && #[trigger] references(at(g0@, c).function, p) && flags@[flat_index(p, cols)] implies done@[flat_index(p, cols)] by {
                lemma_flat_index(c, x, rows, cols);
                lemma_flat_index(p, x, rows, cols);
                if c != x {
                    assert(dprev[flat_index(c, cols)]);
                }
            }
            assert forall|c: Cell| in_grid(c, rows, cols) && !done@[flat_index(c, cols)] implies #[trigger] at(g, c) == at(g0@, c) by {
                lemma_flat_index(c, x, rows, cols);
                assert(at(g2, c) == at(g1, c));
            }
            assert forall|c: Cell| in_grid(c, rows, cols) && done0[flat_index(c, cols)] implies #[trigger] done@[flat_index(c, cols)] by {
                lemma_flat_index(c, x, rows, cols);
            }
            assert forall|j: int| 0 <= j < stack@.len() implies !done@[flat_index(#[trigger] stack@[j], cols)] by {
                lemma_flat_index(stack@[j], x, rows, cols);
                if stack@[j] == x {
                    assert(stack@.contains(x));
                    assert(in_grid(x, rows, cols));
                    assert(active0[flat_index(x, cols)] <==> stack@.contains(x));
                }
            }
        }
    }

    /// Recomputes every cell that `cell` reaches along dependents edges,
    /// each exactly once and after every reached cell it reads, so that
    /// afterwards every cell holds what its formula evaluates to. `cell` and
    /// the cells it does not reach are left as they are.
    pub fn update_dependents(&mut self, cell: &Cell)
        requires
            old(self).structure_ok(),
            old(self).contains(*cell),
            forall|c: Cell| old(self).contains(c) && !reaches_strictly(old(self).cells(), *cell, c)
                ==> #[trigger] settled_at(old(self).cells(), c),
        ensures
            final(self).wf(),
            final(self).num_rows() == old(self).num_rows(),
            final(self).num_cols() == old(self).num_cols(),
            final(self).pending_seconds() >= old(self).pending_seconds(),
            final(self).side() == old(self).side(),
            same_structure(old(self).cells(), final(self).cells(), old(self).num_rows(), old(self).num_cols()),
            forall|c: Cell| final(self).contains(c) && (c == *cell || !reaches_strictly(old(self).cells(), *cell, c))
                ==> #[trigger] at(final(self).cells(), c) == at(old(self).cells(), c),
    {
        let ghost g0 = self.cells();
        let ghost rows = self.num_rows();
        let ghost cols = self.num_cols();
        let root = *cell;
        proof {
            self.lemma_cells();
            self.lemma_cell_at(root);
            lemma_wf_transfer(g0, g0, rows, cols);
        }
        let deps = &self.grid[root.row][root.col].dependents;
        let mut seeds: Vec<Cell> = Vec::new();
        let mut k: usize = 0;
        while k < deps.len()
            invariant
                g0 == self.cells(),
                self.structure_ok(),
                rows == self.num_rows(),
                cols == self.num_cols(),
                in_grid(root, rows, cols),
                deps@ == at(g0, root).dependents@,
                k <= deps@.len(),
                seeds@.len() == k,
                forall|j: int| 0 <= j < k ==> #[trigger] seeds@[j] == cell_of(deps@[j]),
                forall|j: int| 0 <= j < k ==> in_grid(#[trigger] seeds@[j], rows, cols),
            decreases deps@.len() - k,
        {
            let (dr, dc) = deps[k];
            assert(in_grid(cell_of(at(g0, root).dependents@[k as int]), rows, cols));
            seeds.push(Cell { row: dr, col: dc });
            k += 1;
        }
        let flags = self.reachable_from(&seeds);
        proof {
            assert forall|c: Cell| in_grid(c, rows, cols) implies (flags@[flat_index(c, cols)] <==> #[trigger] reaches_strictly(g0, root, c)) by {
                assert(self.contains(c));
                if reaches_strictly(g0, root, c) {
                    let d = choose|d: Cell| edge(g0, root, d) && reaches(g0, d, c);
                    let j = choose|j: int| 0 <= j < deps@.len() && deps@[j] == pair_of(d);
                    assert(seeds@[j] == d);
                    assert(seeds@.contains(d));
                }
                if exists|a: Cell| seeds@.contains(a) && reaches(g0, a, c) {
                    let a = choose|a: Cell| seeds@.contains(a) && reaches(g0, a, c);
                    let j = choose|j: int| 0 <= j < seeds@.len() && seeds@[j] == a;
                    assert(pair_of(a) == deps@[j]);
                    assert(edge(g0, root, a));
                }
            }
        }
        let n: usize = self.rows * self.cols;
        let mut done: Vec<bool> = Vec::new();
        let mut active: Vec<bool> = Vec::new();
        let mut z: usize = 0;
        while z < n
            invariant
                z <= n,
                done@.len() == z,
                active@.len() == z,
                forall|j: int| 0 <= j < z ==> !(#[trigger] done@[j]),
                forall|j: int| 0 <= j < z ==> !(#[trigger] active@[j]),
            decreases n - z,
        {
            done.push(false);
            active.push(false);
            z += 1;
        }
        proof {
            assert forall|c: Cell| in_grid(c, rows, cols) implies !(#[trigger] done@[flat_index(c, cols)]) by {
                lemma_flat_index(c, c, rows, cols);
            }
            assert forall|c: Cell| in_grid(c, rows, cols) implies !(#[trigger] active@[flat_index(c, cols)]) by {
                lemma_flat_index(c, c, rows, cols);
            }
        }
        let mut r: usize = 0;
        while r < self.rows
            invariant
                self.structure_ok(),
                rows == self.num_rows(),
                cols == self.num_cols(),
                rows == old(self).num_rows(),
                cols == old(self).num_cols(),
                g0 == old(self).cells(),
                cells_wf(g0, rows, cols),
                graph_consistent(g0, rows, cols),
                acyclic(g0, rows, cols),
                root == *cell,
                in_grid(root, rows, cols),
                self.pending_seconds() >= old(self).pending_seconds(),
                self.side() == old(self).side(),
                same_structure(g0, self.cells(), rows, cols),
                progress_ok(g0, self.cells(), rows, cols, root, flags@, done@),
                active@.len() == rows * cols,
                forall|c: Cell| in_grid(c, rows, cols) ==> !(#[trigger] active@[flat_index(c, cols)]),
                r <= rows,
                forall|c: Cell| in_grid(c, rows, cols) && c.row < r && flags@[flat_index(c, cols)] ==> #[trigger] done@[flat_index(c, cols)],
            decreases rows - r,
        {
            let mut k: usize = 0;
            while k < self.cols
                invariant
                    self.structure_ok(),
                    rows == self.num_rows(),
                    cols == self.num_cols(),
                    rows == old(self).num_rows(),
                    cols == old(self).num_cols(),
                    g0 == old(self).cells(),
                    cells_wf(g0, rows, cols),
                    graph_consistent(g0, rows, cols),
                    acyclic(g0, rows, cols),
                    root == *cell,
                    in_grid(root, rows, cols),
                    self.pending_seconds() >= old(self).pending_seconds(),
                    self.side() == old(self).side(),
                    same_structure(g0, self.cells(), rows, cols),
                    progress_ok(g0, self.cells(), rows, cols, root, flags@, done@),
                    active@.len() == rows * cols,
                    forall|c: Cell| in_grid(c, rows, cols) ==> !(#[trigger] active@[flat_index(c, cols)]),
                    r < rows,
                    k <= cols,
                    forall|c: Cell| in_grid(c, rows, cols) && (c.row < r || (c.row == r && c.col < k))
                        && flags@[flat_index(c, cols)] ==> #[trigger] done@[flat_index(c, cols)],
                decreases cols - k,
            {
                let c = Cell { row: r, col: k };
                proof {
                    lemma_flat_index(c, c, rows, cols);
                }
                let i = r * self.cols + k;
                if flags[i] && !done[i] {
                    let ghost dprev = done@;
                    proof {
                        assert forall|x: Cell| in_grid(x, rows, cols) implies (active@[flat_index(x, cols)] <==> Seq::<Cell>::empty().contains(x)) by {
                        }
                    }
                    let ghost budget_c = (count_false(done@) + count_false(active@)) as nat;
                    self.settle(c, root, &flags, &mut done, &mut active, Ghost(g0), Ghost(Seq::<Cell>::empty()), Ghost(budget_c));
                    proof {
                        assert forall|x: Cell| in_grid(x, rows, cols) && (x.row < r || (x.row == r && x.col < k + 1))
                            && flags@[flat_index(x, cols)] implies #[trigger] done@[flat_index(x, cols)] by {
                            if x != c {
                                assert(dprev[flat_index(x, cols)]);
                            }
                        }
                    }
                }
                k += 1;
            }
            r += 1;
        }
        proof {
            let g = self.cells();
            assert forall|c: Cell| in_grid(c, rows, cols) && (c == root || !reaches_strictly(g0, root, c))
                implies #[trigger] at(g, c) == at(g0, c) by {
                if c == root {
                    assert(!reaches_strictly(g0, root, root));
                }
            }
            assert forall|c: Cell| in_grid(c, rows, cols) implies #[trigger] settled_at(g, c) by {
                if flags@[flat_index(c, cols)] {
                    assert(done@[flat_index(c, cols)]);
                } else {
                    let fc = at(g0, c).function;
                    assert(!reaches_strictly(g0, root, c));
                    assert(settled_at(g0, c));
                    assert forall|p: Cell| references(fc, p) implies (#[trigger] at(g, p)).value == at(g0, p).value
                        && at(g, p).error == at(g0, p).error by {
                        lemma_refs_in_grid(fc, p, rows, cols);
                        assert(edge(g0, p, c));
                        if reaches_strictly(g0, root, p) {
                            let d = choose|d: Cell| edge(g0, root, d) && reaches(g0, d, p);
                            lemma_reaches_step(g0, d, p, c);
                            assert(reaches_strictly(g0, root, c));
                        }
                        if p == root {
                            lemma_reaches_self(g0, c);
                            assert(reaches_strictly(g0, root, c));
                        }
                        assert(!done@[flat_index(p, cols)]);
                    }
                    assert(formula_ok(fc, rows, cols));
                    lemma_eval_frame(g, g0, fc, rows, cols);
                }
            }
        }
    }
}

impl Backend {
    /// Installs formula `f` in cell `c` without touching the graph.
    fn set_function(&mut self, c: Cell, f: Function)
        requires
            shape_ok(old(self).cells(), old(self).num_rows(), old(self).num_cols()),
            old(self).contains(c),
            formula_ok(f, old(self).num_rows(), old(self).num_cols()),
        ensures
            shape_ok(final(self).cells(), final(self).num_rows(), final(self).num_cols()),
            final(self).num_rows() == old(self).num_rows(),
            final(self).num_cols() == old(self).num_cols(),
            final(self).pending_seconds() == old(self).pending_seconds(),
            final(self).side() == old(self).side(),
            final(self).cell_at(c) == (CellData { function: f, ..old(self).cell_at(c) }),
            forall|x: Cell| final(self).contains(x) && x != c ==> #[trigger] at(final(self).cells(), x) == at(old(self).cells(), x),
    {
        proof {
            self.lemma_cells();
        }
        let ghost g0 = self.cells();
        self.grid[c.row][c.col].function = f;
        proof {
            self.lemma_cells();
            let nd = CellData { function: f, ..at(g0, c) };
            assert(self.cells() =~~= g0.update(c.row as int, g0[c.row as int].update(c.col as int, nd)));
            assert forall|x: Cell| self.contains(x) implies #[trigger] at(self.cells(), x) == (if x == c {
                nd
            } else {
                at(g0, x)
            }) by {
                if x.row == c.row && x.col != c.col {
                    assert(x != c);
                }
            }
            assert forall|r: int| 0 <= r < self.num_rows() implies (#[trigger] self.cells()[r]).len() == self.num_cols() by {
                assert(g0[r].len() == self.num_cols());
            }
            assert forall|x: Cell| in_grid(x, self.num_rows(), self.num_cols()) implies formula_ok(
                #[trigger] at(self.cells(), x).function, self.num_rows(), self.num_cols()) by {
                if x != c {
                    assert(formula_ok(at(g0, x).function, self.num_rows(), self.num_cols()));
                }
            }
            assert forall|x: Cell, k: int| in_grid(x, self.num_rows(), self.num_cols()) && 0 <= k < at(self.cells(), x).dependents@.len()
                implies in_grid(cell_of(#[trigger] at(self.cells(), x).dependents@[k]), self.num_rows(), self.num_cols()) by {
                assert(in_grid(cell_of(at(g0, x).dependents@[k]), self.num_rows(), self.num_cols()));
            }
        }
    }

    /// Parses `expression` (one leading `=` allowed) and, in one step, makes
    /// it the formula of `cell`: the dependency graph is re-linked, `cell` is
    /// evaluated and every cell reachable from it is recomputed, so that the
    /// invariant `wf` (acyclic graph, every cell holding its formula's value)
    /// holds again. An edit that does not parse, or whose formula reads `cell`
    /// itself or a cell that `cell` already reaches, is rejected and changes
    /// nothing.
    #[verifier::rlimit(40)]
    pub fn set_cell_value(&mut self, cell: Cell, expression: &str) -> (r: Result<(), ExpressionError>)
        requires
            old(self).wf(),
            old(self).contains(cell),
        ensures
            final(self).wf(),
            final(self).side() == old(self).side(),
            final(self).pending_seconds() >= old(self).pending_seconds(),
            final(self).num_rows() == old(self).num_rows(),
            final(self).num_cols() == old(self).num_cols(),
            forall|c: Cell| final(self).contains(c) && c != cell
                ==> #[trigger] final(self).cell_at(c).function == old(self).cell_at(c).function,
            // a constant is always accepted, without error
            ({
                match parse_spec(formula_text(expression@), old(self).num_rows(), old(self).num_cols()) {
                    Some(f) => f.data is Value ==> r is Ok && final(self).cell_at(cell).value == f.data->Value_0
                        && final(self).cell_at(cell).error == CellError::NoError,
                    None => true,
                }
            }),
            ({
                let parsed = parse_spec(formula_text(expression@), old(self).num_rows(), old(self).num_cols());
                match parsed {
                    None => r == Err::<(), ExpressionError>(ExpressionError::CouldNotParse) && *final(self) == *old(self),
                    Some(f) => if references(f, cell) || exists|p: Cell| #[trigger] references(f, p)
                        && reaches(old(self).cells(), cell, p) {
                        r == Err::<(), ExpressionError>(ExpressionError::CircularDependency) && *final(self) == *old(self)
                    } else {
                        &&& r is Ok
                        &&& final(self).pending_seconds() >= add_capped(old(self).pending_seconds(),
                            sleep_seconds(f, final(self).cell_at(cell).value, final(self).cell_at(cell).error))
                        &&& final(self).cell_at(cell).function == f
                        &&& (final(self).cell_at(cell).value, final(self).cell_at(cell).error) == eval_spec(final(self).cells(), f)
                        &&& forall|c: Cell| final(self).contains(c) && c != cell && !reaches_strictly(final(self).cells(), cell, c)
                            ==> (#[trigger] final(self).cell_at(c)).value == old(self).cell_at(c).value
                                && final(self).cell_at(c).error == old(self).cell_at(c).error
                                && final(self).cell_at(c).function == old(self).cell_at(c).function
                    },
                }
            }),
    {
        let ghost g0 = self.cells();
        let ghost rows = self.num_rows();
        let ghost cols = self.num_cols();
        let text = strip_assignment(expression);
        let f = match parse_chars(&text, self.rows, self.cols) {
            Some(f) => f,
            None => return Err(ExpressionError::CouldNotParse),
        };
        proof {
            self.lemma_cells();
            lemma_parse_ok(text@, rows, cols);
        }
        let refs = referenced_cells(&f);
        if list_has(&refs, cell) {
            assert(references(f, cell));
            assert(!(f.data is Value));
            return Err(ExpressionError::CircularDependency);
        }
        let mut seeds: Vec<Cell> = Vec::new();
        seeds.push(cell);
        proof {
            lemma_wf_transfer(g0, g0, rows, cols);
        }
        if self.reaches_any(&seeds, &refs) {
            proof {
                let (a, p) = choose|a: Cell, p: Cell| seeds@.contains(a) && refs@.contains(p) && reaches(g0, a, p);
                assert(seeds@[0] == cell);
                assert(references(f, p));
                assert(!(f.data is Value));
            }
            return Err(ExpressionError::CircularDependency);
        }
        proof {
            assert(seeds@.contains(cell)) by {
                assert(seeds@[0] == cell);
            }
            assert forall|p: Cell| #[trigger] references(f, p) implies !reaches(g0, cell, p) by {
                assert(refs@.contains(p));
            }
            self.lemma_cell_at(cell);
        }
        let old_function = self.grid[cell.row][cell.col].function;
        self.set_function(cell, f);
        let ghost g1 = self.cells();
        self.update_graph(&cell, &old_function);
        let ghost g2 = self.cells();
        proof {
            // the graph agrees with the formulas again
            assert forall|c: Cell| in_grid(c, rows, cols) implies (#[trigger] at(g2, c)).dirty_parents == 0 by {
                assert(at(g1, c).dirty_parents == at(g2, c).dirty_parents);
                if c != cell {
                    assert(at(g1, c) == at(g0, c));
                }
            }
            assert forall|p: Cell, x: Cell| in_grid(p, rows, cols) && in_grid(x, rows, cols) implies
                (#[trigger] edge(g2, p, x) <==> references(#[trigger] at(g2, x).function, p)) by {
                assert(at(g2, x).function == at(g1, x).function);
                assert(edge(g1, p, x) == edge(g0, p, x));
                if x != cell {
                    assert(at(g1, x) == at(g0, x));
                    assert(edge(g0, p, x) <==> references(at(g0, x).function, p));
                } else {
                    assert(edge(g0, p, cell) <==> references(old_function, p));
                }
            }
            assert forall|a: Cell, b: Cell| in_grid(a, rows, cols) && in_grid(b, rows, cols) && b != cell
                && #[trigger] edge(g2, a, b) implies edge(g0, a, b) by {
                assert(edge(g1, a, b) == edge(g0, a, b));
            }
            assert forall|a: Cell| in_grid(a, rows, cols) && #[trigger] edge(g2, a, cell) implies references(f, a) by {
                assert(references(at(g2, cell).function, a));
            }
            lemma_install_acyclic(g0, g2, rows, cols, cell, f);
            assert(self.structure_ok());
        }
        let (v, e) = self.evaluate_expression(&f);
        self.set_result(cell, v, e);
        self.note_sleep(&f, v, e);
        let ghost g3 = self.cells();
        proof {
            // every cell that `cell` does not reach already holds its value
            lemma_wf_transfer(g2, g3, rows, cols);
            assert(eval_spec(g2, f) == eval_spec(g3, f)) by {
                lemma_eval_frame(g2, g3, f, rows, cols);
            }
            assert forall|c: Cell| in_grid(c, rows, cols) && !reaches_strictly(g3, cell, c)
                implies #[trigger] settled_at(g3, c) by {
                if c == cell {
                    assert(at(g3, cell).function == f);
                } else {
                    let fc = at(g0, c).function;
                    assert(at(g1, c) == at(g0, c));
                    assert(at(g3, c).function == fc);
                    assert(settled_at(g0, c));
                    assert(formula_ok(fc, rows, cols));
                    assert forall|p: Cell| references(fc, p) implies (#[trigger] at(g3, p)).value == at(g0, p).value
                        && at(g3, p).error == at(g0, p).error by {
                        lemma_refs_in_grid(fc, p, rows, cols);
                        if p == cell {
                            assert(edge(g3, cell, c));
                            lemma_reaches_self(g3, c);
                            assert(reaches_strictly(g3, cell, c));
                        }
                        assert(at(g1, p) == at(g0, p));
                    }
                    lemma_eval_frame(g3, g0, fc, rows, cols);
                }
            }
        }
        self.update_dependents(&cell);
        proof {
            let g4 = self.cells();
            lemma_wf_transfer(g3, g4, rows, cols);
            lemma_wf_transfer(g2, g3, rows, cols);
            // edges into cells other than `cell` are those of the old graph
            assert forall|a: Cell, b: Cell| in_grid(a, rows, cols) && in_grid(b, rows, cols) && b != cell
                && #[trigger] edge(g3, a, b) implies edge(g0, a, b) by {
                assert(edge(g3, a, b) == edge(g2, a, b));
                assert(edge(g1, a, b) == edge(g0, a, b));
            }
            // no input of `f` changes during propagation
            assert forall|p: Cell| references(f, p) implies (#[trigger] at(g3, p)).value == at(g4, p).value
                && at(g3, p).error == at(g4, p).error by {
                lemma_refs_in_grid(f, p, rows, cols);
                if reaches_strictly(g3, cell, p) {
                    let d = choose|d: Cell| edge(g3, cell, d) && reaches(g3, d, p);
                    lemma_reaches_prepend(g3, cell, d, p);
                    let w = choose|w: Seq<Cell>| is_walk(g3, w) && w[0] == cell && w.last() == p;
                    lemma_walk_back(g3, g0, rows, cols, cell, w);
                    assert(false);
                }
                assert(p != cell);
            }
            lemma_eval_frame(g3, g4, f, rows, cols);
            assert forall|c: Cell| in_grid(c, rows, cols) && c != cell implies #[trigger] at(g4, c).function == at(g0, c).function by {
                assert(at(g1, c) == at(g0, c));
                assert(at(g2, c).function == at(g1, c).function);
                assert(at(g3, c).function == at(g2, c).function);
                assert(at(g4, c).function == at(g3, c).function);
            }
            assert(eval_spec(g2, f) == eval_spec(g3, f)) by {
                lemma_eval_frame(g2, g3, f, rows, cols);
            }
            assert forall|c: Cell| in_grid(c, rows, cols) && c != cell && !reaches_strictly(g4, cell, c)
                implies (#[trigger] at(g4, c)).value == at(g0, c).value && at(g4, c).error == at(g0, c).error
                && at(g4, c).function == at(g0, c).function by {
                if reaches_strictly(g3, cell, c) {
                    let d = choose|d: Cell| edge(g3, cell, d) && reaches(g3, d, c);
                    lemma_edge_in_grid(g3, rows, cols, cell, d);
                    let w = choose|w: Seq<Cell>| is_walk(g3, w) && w[0] == d && w.last() == c;
                    lemma_reaches_transfer(g3, g4, rows, cols, d, w);
                    assert(edge(g4, cell, d));
                }
                assert(at(g1, c) == at(g0, c));
                assert(at(g2, c).value == at(g1, c).value);
            }
        }
        Ok(())
    }
}

/// Taking a snapshot and applying it straight away gives back the same grid:
/// every cell's value, error, formula, dependents and marker.
pub proof fn lemma_snapshot_round_trip(before: Backend, snapshot: Vec<Vec<CellData>>, after: Backend)
    requires
        is_copy_of(snapshot_view(snapshot), before.cells(), before.num_rows(), before.num_cols()),
        after.cells() == snapshot_view(snapshot),
        after.num_rows() == before.num_rows(),
        after.num_cols() == before.num_cols(),
    ensures
        forall|c: Cell| before.contains(c) ==> same_cell(#[trigger] after.cell_at(c), before.cell_at(c)),
{
}

fn copy_pairs(v: &Vec<(usize, usize)>) -> (r: Vec<(usize, usize)>)
    ensures
        r@ == v@,
{
    let mut out: Vec<(usize, usize)> = Vec::new();
    let mut i: usize = 0;
    while i < v.len()
        invariant
            i <= v.len(),
            out@ == v@.take(i as int),
        decreases v.len() - i,
    {
        out.push(v[i]);
        assert(v@.take(i + 1) =~= v@.take(i as int).push(v@[i as int]));
        i += 1;
    }
    assert(v@.take(v.len() as int) =~= v@);
    out
}

fn copy_cell(d: &CellData) -> (r: CellData)
    ensures
        same_cell(r, *d),
{
    CellData {
        value: d.value,
        dependents: copy_pairs(&d.dependents),
        function: d.function,
        error: d.error,
        dirty_parents: d.dirty_parents,
    }
}

impl Backend {
    /// Whether `start` lies on a cycle: it is reachable from itself along one
    /// or more dependents edges.
    pub fn check_circular_dependency(&self, start: &Cell) -> (r: bool)
        requires
            shape_ok(self.cells(), self.num_rows(), self.num_cols()),
            self.contains(*start),
        ensures
            r == reaches_strictly(self.cells(), *start, *start),
    {
        let ghost g = self.cells();
        let ghost rows = self.num_rows();
        let ghost cols = self.num_cols();
        proof {
            self.lemma_cells();
            self.lemma_cell_at(*start);
        }
        let deps = &self.grid[start.row][start.col].dependents;
        let mut seeds: Vec<Cell> = Vec::new();
        let mut k: usize = 0;
        while k < deps.len()
            invariant
                g == self.cells(),
                shape_ok(g, rows, cols),
                rows == self.num_rows(),
                cols == self.num_cols(),
                in_grid(*start, rows, cols),
                deps@ == at(g, *start).dependents@,
                k <= deps@.len(),
                seeds@.len() == k,
                forall|j: int| 0 <= j < k ==> #[trigger] seeds@[j] == cell_of(deps@[j]),
                forall|j: int| 0 <= j < k ==> in_grid(#[trigger] seeds@[j], rows, cols),
            decreases deps@.len() - k,
        {
            let (dr, dc) = deps[k];
            assert(in_grid(cell_of(at(g, *start).dependents@[k as int]), rows, cols));
            seeds.push(Cell { row: dr, col: dc });
            k += 1;
        }
        let mut targets: Vec<Cell> = Vec::new();
        targets.push(*start);
        let r = self.reaches_any(&seeds, &targets);
        proof {
            assert(targets@[0] == *start);
            if r {
                let (a, b) = choose|a: Cell, b: Cell| seeds@.contains(a) && targets@.contains(b) && reaches(g, a, b);
                let j = choose|j: int| 0 <= j < seeds@.len() && seeds@[j] == a;
                assert(pair_of(a) == deps@[j]);
                assert(edge(g, *start, a));
            }
            if reaches_strictly(g, *start, *start) {
                let d = choose|d: Cell| edge(g, *start, d) && reaches(g, d, *start);
                let j = choose|j: int| 0 <= j < deps@.len() && deps@[j] == pair_of(d);
                assert(seeds@[j] == d);
                assert(seeds@.contains(d) && targets@.contains(*start));
            }
        }
        r
    }

    /// Whether `start` lies on a cycle of dependents edges: the same search
    /// as `check_circular_dependency`.
    pub fn is_in_cycle(&self, start: &Cell) -> (r: bool)
        requires
            shape_ok(self.cells(), self.num_rows(), self.num_cols()),
            self.contains(*start),
        ensures
            r == reaches_strictly(self.cells(), *start, *start),
    {
        self.check_circular_dependency(start)
    }

    /// The value and error of `cell`, or `None` when it lies outside the grid.
    pub fn cell_value_at(&self, cell: Cell) -> (r: Option<(i32, CellError)>)
        requires
            shape_ok(self.cells(), self.num_rows(), self.num_cols()),
        ensures
            r == if self.contains(cell) {
                Some((self.cell_at(cell).value, self.cell_at(cell).error))
            } else {
                None::<(i32, CellError)>
            },
    {
        if cell.row < self.rows && cell.col < self.cols {
            let d = self.get_cell_value_unchecked(cell.row, cell.col);
            Some((d.value, d.error))
        } else {
            None
        }
    }

    fn get_cell_value_unchecked(&self, row: usize, col: usize) -> (r: &CellData)
        requires
            shape_ok(self.cells(), self.num_rows(), self.num_cols()),
            row < self.num_rows(),
            col < self.num_cols(),
        ensures
            *r == self.cell_at(Cell { row, col }),
    {
        proof {
            self.lemma_cells();
        }
        &self.grid[row][col]
    }

    /// The value every cell of the rectangle holds, if they all hold the
    /// top-left cell's value.
    pub fn constant_series(&self, tl: Cell, br: Cell) -> (r: Option<i32>)
        requires
            self.structure_ok(),
            tl.row <= br.row < self.num_rows(),
            tl.col <= br.col < self.num_cols(),
        ensures
            r == if block_constant(self.cells(), tl, br, self.cell_at(tl).value) {
                Some(self.cell_at(tl).value)
            } else {
                None::<i32>
            },
    {
        let v = self.get_cell_value(tl.row, tl.col).value;
        let mut r = tl.row;
        while r <= br.row
            invariant
                self.structure_ok(),
                tl.row <= r <= br.row + 1,
                br.row < self.num_rows(),
                tl.col <= br.col < self.num_cols(),
                v == self.cell_at(tl).value,
                forall|x: Cell| in_block(tl, br, x) && x.row < r ==> #[trigger] at(self.cells(), x).value == v,
            decreases br.row + 1 - r,
        {
            let mut c = tl.col;
            while c <= br.col
                invariant
                    self.structure_ok(),
                    tl.row <= r <= br.row,
                    tl.col <= c <= br.col + 1,
                    br.row < self.num_rows(),
                    br.col < self.num_cols(),
                    v == self.cell_at(tl).value,
                    forall|x: Cell| in_block(tl, br, x) && (x.row < r || (x.row == r && x.col < c))
                        ==> #[trigger] at(self.cells(), x).value == v,
                decreases br.col + 1 - c,
            {
                if self.get_cell_value(r, c).value != v {
                    assert(in_block(tl, br, Cell { row: r, col: c }));
                    return None;
                }
                c += 1;
            }
            r += 1;
        }
        Some(v)
    }

    /// The common difference `d` (each value minus the one below it, wrapping)
    /// down every column of the rectangle, taken from the top-left cell and
    /// the one below it, if every step matches it.
    pub fn arithmetic_series(&self, tl: Cell, br: Cell) -> (r: Option<i32>)
        requires
            self.structure_ok(),
            tl.row <= br.row < self.num_rows(),
            tl.row + 1 < self.num_rows(),
            tl.col <= br.col < self.num_cols(),
        ensures
            ({
                let d = wrap_i32(self.cell_at(tl).value - self.cell_at(Cell { row: (tl.row + 1) as usize, col: tl.col }).value);
                r == if block_steps(self.cells(), tl, br, d) { Some(d) } else { None::<i32> }
            }),
    {
        let d = wrapping_combine(self.get_cell_value(tl.row, tl.col).value, self.get_cell_value(tl.row + 1, tl.col).value, true);
        let mut r = tl.row;
        while r < br.row
            invariant
                self.structure_ok(),
                tl.row <= r <= br.row,
                br.row < self.num_rows(),
                tl.row + 1 < self.num_rows(),
                tl.col <= br.col < self.num_cols(),
                d == wrap_i32(self.cell_at(tl).value - self.cell_at(Cell { row: (tl.row + 1) as usize, col: tl.col }).value),
                forall|x: Cell| in_block(tl, br, x) && x.row < r ==> wrap_i32(#[trigger] at(self.cells(), x).value
                    - at(self.cells(), Cell { row: (x.row + 1) as usize, col: x.col }).value) == d,
            decreases br.row - r,
        {
            let mut c = tl.col;
            while c <= br.col
                invariant
                    self.structure_ok(),
                    tl.row <= r < br.row,
                    tl.col <= c <= br.col + 1,
                    br.row < self.num_rows(),
                    tl.row + 1 < self.num_rows(),
                    br.col < self.num_cols(),
                    d == wrap_i32(self.cell_at(tl).value - self.cell_at(Cell { row: (tl.row + 1) as usize, col: tl.col }).value),
                    forall|x: Cell| in_block(tl, br, x) && (x.row < r || (x.row == r && x.col < c)) ==> wrap_i32(
                        #[trigger] at(self.cells(), x).value - at(self.cells(), Cell { row: (x.row + 1) as usize, col: x.col }).value) == d,
                decreases br.col + 1 - c,
            {
                let step = wrapping_combine(self.get_cell_value(r, c).value, self.get_cell_value(r + 1, c).value, true);
                if step != d {
                    assert(in_block(tl, br, Cell { row: r, col: c }));
                    return None;
                }
                c += 1;
            }
            r += 1;
        }
        Some(d)
    }

    /// Continues a series down from row `from.row`: every cell of rows
    /// `from.row + 1 ..= to.row`, columns `from.col ..= to.col`, top row
    /// first, is set to the constant of the cell above minus `step`
    /// (wrapping); afterwards each of them holds a constant.
    pub fn fill_series(&mut self, from: Cell, to: Cell, step: i32)
        requires
            old(self).wf(),
            to.row < old(self).num_rows(),
            to.col < old(self).num_cols(),
        ensures
            final(self).wf(),
            final(self).num_rows() == old(self).num_rows(),
            final(self).num_cols() == old(self).num_cols(),
            forall|x: Cell| from.row < x.row <= to.row && from.col <= x.col <= to.col
                ==> (#[trigger] final(self).cell_at(x)).function.data is Value,
    {
        if from.row >= to.row || from.col > to.col {
            return;
        }
        let mut r = from.row + 1;
        while r <= to.row
            invariant
                self.wf(),
                from.row < r <= to.row + 1,
                from.col <= to.col,
                to.row < self.num_rows(),
                to.col < self.num_cols(),
                self.num_rows() == old(self).num_rows(),
                self.num_cols() == old(self).num_cols(),
                forall|x: Cell| from.row < x.row < r && from.col <= x.col <= to.col
                    ==> (#[trigger] self.cell_at(x)).function.data is Value,
            decreases to.row + 1 - r,
        {
            let mut c = from.col;
            while c <= to.col
                invariant
                    self.wf(),
                    from.row < r <= to.row,
                    from.col <= c <= to.col + 1,
                    to.row < self.num_rows(),
                    to.col < self.num_cols(),
                    self.num_rows() == old(self).num_rows(),
                    self.num_cols() == old(self).num_cols(),
                    forall|x: Cell| from.row < x.row <= to.row && from.col <= x.col <= to.col
                        && (x.row < r || (x.row == r && x.col < c)) ==> (#[trigger] self.cell_at(x)).function.data is Value,
                decreases to.col + 1 - c,
            {
                let above = self.get_cell_value(r - 1, c).value;
                let v = wrapping_combine(above, step, true);
                let text = integer_text(v);
                proof {
                    crate::cli::lemma_integer_parses(v, self.num_rows(), self.num_cols());
                }
                let cell = Cell { row: r, col: c };
                let ghost before = self.cells();
                let _ = self.set_cell_value(cell, text.as_str());
                assert forall|x: Cell| from.row < x.row <= to.row && from.col <= x.col <= to.col
                    && (x.row < r || (x.row == r && x.col < c + 1)) implies (#[trigger] self.cell_at(x)).function.data is Value by {
                    if x != cell {
                        assert(self.contains(x));
                        assert(self.cell_at(x).function == at(before, x).function);
                    }
                }
                c += 1;
            }
            r += 1;
        }
    }

    /// Resets every cell to a fresh record, keeping the dimensions.
    pub fn reset(&mut self)
        requires
            old(self).num_rows() * old(self).num_cols() <= usize::MAX,
        ensures
            final(self).wf(),
            final(self).num_rows() == old(self).num_rows(),
            final(self).num_cols() == old(self).num_cols(),
            forall|c: Cell| final(self).contains(c) ==> is_default_cell(#[trigger] final(self).cell_at(c)),
    {
        *self = Backend::new(self.rows, self.cols);
    }

    /// Clears the scratch marker of `start` and of every cell reachable from it.
    pub fn reset_found(&mut self, start: &Cell)
        requires
            shape_ok(old(self).cells(), old(self).num_rows(), old(self).num_cols()),
            old(self).contains(*start),
        ensures
            shape_ok(final(self).cells(), final(self).num_rows(), final(self).num_cols()),
            final(self).num_rows() == old(self).num_rows(),
            final(self).num_cols() == old(self).num_cols(),
            final(self).pending_seconds() == old(self).pending_seconds(),
            final(self).side() == old(self).side(),
            forall|c: Cell| final(self).contains(c) ==> {
                &&& (#[trigger] at(final(self).cells(), c)) == (CellData { dirty_parents: at(final(self).cells(), c).dirty_parents, ..at(old(self).cells(), c) })
                &&& reaches(old(self).cells(), *start, c) ==> at(final(self).cells(), c).dirty_parents == 0
                &&& !reaches(old(self).cells(), *start, c) ==> at(final(self).cells(), c) == at(old(self).cells(), c)
            },
    {
        let ghost g0 = self.cells();
        let ghost rows = self.num_rows();
        let ghost cols = self.num_cols();
        let mut seeds: Vec<Cell> = Vec::new();
        seeds.push(*start);
        assert(seeds@[0] == *start);
        let flags = self.reachable_from(&seeds);
        proof {
            assert forall|c: Cell| in_grid(c, rows, cols) implies (flags@[flat_index(c, cols)] <==> reaches(g0, *start, c)) by {
                assert(seeds@[0] == *start);
                assert(seeds@.contains(*start));
                assert(self.contains(c));
                assert(flags@[flat_index(c, self.num_cols())] <==> exists|a: Cell| seeds@.contains(a) && reaches(self.cells(), a, c));
                if exists|a: Cell| seeds@.contains(a) && reaches(g0, a, c) {
                    let a = choose|a: Cell| seeds@.contains(a) && reaches(g0, a, c);
                    let j = choose|j: int| 0 <= j < seeds@.len() && seeds@[j] == a;
                    assert(a == *start);
                }
            }
        }
        let mut r: usize = 0;
        while r < self.rows
            invariant
                shape_ok(self.cells(), self.num_rows(), self.num_cols()),
                rows == self.num_rows(),
                cols == self.num_cols(),
                self.pending_seconds() == old(self).pending_seconds(),
                self.side() == old(self).side(),
                g0 == old(self).cells(),
                r <= rows,
                flags@.len() == rows * cols,
                seeds@ == seq![*start],
                forall|c: Cell| in_grid(c, rows, cols) ==> (flags@[flat_index(c, cols)] <==> reaches(g0, *start, c)),
                forall|c: Cell| in_grid(c, rows, cols) ==> {
                    &&& (#[trigger] at(self.cells(), c)) == (CellData { dirty_parents: at(self.cells(), c).dirty_parents, ..at(g0, c) })
                    &&& c.row < r && reaches(g0, *start, c) ==> at(self.cells(), c).dirty_parents == 0
                    &&& !(c.row < r && reaches(g0, *start, c)) ==> at(self.cells(), c) == at(g0, c)
                },
            decreases rows - r,
        {
            let mut k: usize = 0;
            while k < self.cols
                invariant
                    shape_ok(self.cells(), self.num_rows(), self.num_cols()),
                    rows == self.num_rows(),
                    cols == self.num_cols(),
                    self.pending_seconds() == old(self).pending_seconds(),
                    self.side() == old(self).side(),
                    r < rows,
                    k <= cols,
                    flags@.len() == rows * cols,
                    forall|c: Cell| in_grid(c, rows, cols) ==> (flags@[flat_index(c, cols)] <==> reaches(g0, *start, c)),
                    forall|c: Cell| in_grid(c, rows, cols) ==> {
                        &&& (#[trigger] at(self.cells(), c)) == (CellData { dirty_parents: at(self.cells(), c).dirty_parents, ..at(g0, c) })
                        &&& (c.row < r || (c.row == r && c.col < k)) && reaches(g0, *start, c) ==> at(self.cells(), c).dirty_parents == 0
                        &&& !((c.row < r || (c.row == r && c.col < k)) && reaches(g0, *start, c)) ==> at(self.cells(), c) == at(g0, c)
                    },
                decreases cols - k,
            {
                let c = Cell { row: r, col: k };
                proof {
                    lemma_flat_index(c, c, rows, cols);
                }
                if flags[r * self.cols + k] {
                    self.clear_marker(c);
                }
                k += 1;
            }
            r += 1;
        }
    }

    fn clear_marker(&mut self, c: Cell)
        requires
            shape_ok(old(self).cells(), old(self).num_rows(), old(self).num_cols()),
            old(self).contains(c),
        ensures
            shape_ok(final(self).cells(), final(self).num_rows(), final(self).num_cols()),
            final(self).num_rows() == old(self).num_rows(),
            final(self).num_cols() == old(self).num_cols(),
            final(self).pending_seconds() == old(self).pending_seconds(),
            final(self).side() == old(self).side(),
            at(final(self).cells(), c) == (CellData { dirty_parents: 0, ..at(old(self).cells(), c) }),
            forall|x: Cell| final(self).contains(x) && x != c ==> #[trigger] at(final(self).cells(), x) == at(old(self).cells(), x),
    {
        proof {
            self.lemma_cells();
        }
        let ghost g0 = self.cells();
        self.grid[c.row][c.col].dirty_parents = 0;
        proof {
            self.lemma_cells();
            let nd = CellData { dirty_parents: 0, ..at(g0, c) };
            assert(self.cells() =~~= g0.update(c.row as int, g0[c.row as int].update(c.col as int, nd)));
            assert forall|x: Cell| self.contains(x) implies #[trigger] at(self.cells(), x) == (if x == c {
                nd
            } else {
                at(g0, x)
            }) by {
                if x.row == c.row && x.col != c.col {
                    assert(x != c);
                }
            }
            assert forall|r: int| 0 <= r < self.num_rows() implies (#[trigger] self.cells()[r]).len() == self.num_cols() by {
                assert(g0[r].len() == self.num_cols());
            }
            assert forall|x: Cell| in_grid(x, self.num_rows(), self.num_cols()) implies formula_ok(
                #[trigger] at(self.cells(), x).function, self.num_rows(), self.num_cols()) by {
                assert(formula_ok(at(g0, x).function, self.num_rows(), self.num_cols()));
            }
            assert forall|x: Cell, k: int| in_grid(x, self.num_rows(), self.num_cols()) && 0 <= k < at(self.cells(), x).dependents@.len()
                implies in_grid(cell_of(#[trigger] at(self.cells(), x).dependents@[k]), self.num_rows(), self.num_cols()) by {
                assert(in_grid(cell_of(at(g0, x).dependents@[k]), self.num_rows(), self.num_cols()));
            }
        }
    }

    /// Marks, in a row-major array, every cell reachable from some seed.
    pub fn reachable_from(&self, seeds: &Vec<Cell>) -> (flags: Vec<bool>)
        requires
            shape_ok(self.cells(), self.num_rows(), self.num_cols()),
            forall|k: int| 0 <= k < seeds@.len() ==> self.contains(#[trigger] seeds@[k]),
        ensures
            flags@.len() == self.num_rows() * self.num_cols(),
            forall|c: Cell| self.contains(c) ==> (flags@[flat_index(c, self.num_cols())]
                <==> exists|a: Cell| seeds@.contains(a) && reaches(self.cells(), a, c)),
    {
        let ghost g = self.cells();
        let ghost rows = self.num_rows();
        let ghost cols = self.num_cols();
        proof {
            self.lemma_cells();
        }
        let n: usize = self.rows * self.cols;
        let mut seen: Vec<bool> = Vec::new();
        let mut z: usize = 0;
        while z < n
            invariant
                z <= n,
                seen@.len() == z,
                forall|j: int| 0 <= j < z ==> !(#[trigger] seen@[j]),
            decreases n - z,
        {
            seen.push(false);
            z += 1;
        }
        let targets: Vec<Cell> = Vec::new();
        let mut stack: Vec<Cell> = Vec::new();
        if self.visit_seeds(&mut seen, &mut stack, seeds, &targets) {
            proof {
                let (a, b) = choose|a: Cell, b: Cell| seeds@.contains(a) && targets@.contains(b) && reaches(g, a, b);
            }
            return seen;
        }
        while stack.len() > 0
            invariant
                g == self.cells(),
                rows == self.num_rows(),
                cols == self.num_cols(),
                shape_ok(g, rows, cols),
                targets@.len() == 0,
                forall|k: int| 0 <= k < seeds@.len() ==> in_grid(#[trigger] seeds@[k], rows, cols)
                    && seen@[flat_index(seeds@[k], cols)],
                marks_ok(g, rows, cols, seen@, seeds@, targets@),
                stack_ok(rows, cols, seen@, stack@),
                closed_but(g, rows, cols, seen@, stack@, None),
            decreases count_false(seen@), stack@.len(),
        {
            let ghost st = stack@;
            let c = stack.pop().unwrap();
            proof {
                assert(c == st.last() && stack@ == st.drop_last());
                assert(st[st.len() - 1] == c);
                assert forall|k: int| 0 <= k < stack@.len() implies in_grid(#[trigger] stack@[k], rows, cols)
                    && seen@[flat_index(stack@[k], cols)] by {
                    assert(stack@[k] == st[k]);
                }
                assert forall|x: Cell, e: Cell| in_grid(x, rows, cols) && seen@[flat_index(x, cols)] && !stack@.contains(x)
                    && Some(c) != Some(x) && #[trigger] edge(g, x, e) implies seen@[flat_index(e, cols)] by {
                    if st.contains(x) {
                        let j = choose|j: int| 0 <= j < st.len() && st[j] == x;
                        if j < st.len() - 1 {
                            assert(stack@[j] == x);
                        }
                    }
                }
            }
            let ghost seen0 = seen@;
            if self.expand(&mut seen, &mut stack, c, seeds, &targets) {
                proof {
                    let (a, b) = choose|a: Cell, b: Cell| seeds@.contains(a) && targets@.contains(b) && reaches(g, a, b);
                }
                return seen;
            }
            proof {
                if count_false(seen@) == count_false(seen0) {
                    assert(stack@.len() < st.len());
                }
            }
        }
        proof {
            assert forall|c: Cell| in_grid(c, rows, cols) && (exists|a: Cell| seeds@.contains(a) && reaches(g, a, c))
                implies seen@[flat_index(c, cols)] by {
                let a = choose|a: Cell| seeds@.contains(a) && reaches(g, a, c);
                let w = choose|w: Seq<Cell>| is_walk(g, w) && w[0] == a && w.last() == c;
                let j = choose|j: int| 0 <= j < seeds@.len() && seeds@[j] == a;
                assert(in_grid(seeds@[j], rows, cols) && seen@[flat_index(seeds@[j], cols)]);
                assert forall|x: Cell, d: Cell| in_grid(x, rows, cols) && seen@[flat_index(x, cols)] && #[trigger] edge(g, x, d)
                    implies in_grid(d, rows, cols) && seen@[flat_index(d, cols)] by {
                    lemma_edge_in_grid(g, rows, cols, x, d);
                    assert(!stack@.contains(x));
                }
                lemma_closed_reach(g, rows, cols, seen@, w);
            }
        }
        seen
    }

    /// The cells that `(row, col)` reads (each range cell in row-major order)
    /// and the cells that read it, as `(row, col)` pairs.
    pub fn get_cell_dependencies(&self, row: usize, col: usize) -> (r: (Vec<(usize, usize)>, Vec<(usize, usize)>))
        requires
            self.structure_ok(),
            row < self.num_rows(),
            col < self.num_cols(),
        ensures
            forall|p: (usize, usize)| r.0@.contains(p) <==> references(self.cell_at(Cell { row, col }).function, cell_of(p)),
            r.0@.len() == ref_list(self.cell_at(Cell { row, col }).function).len(),
            forall|j: int| 0 <= j < r.0@.len() ==> #[trigger] r.0@[j] == pair_of(ref_list(self.cell_at(Cell { row, col }).function)[j]),
            r.1@ == self.cell_at(Cell { row, col }).dependents@,
    {
        let c = Cell { row, col };
        proof {
            self.lemma_cell_at(c);
        }
        let d = &self.grid[row][col];
        let refs = referenced_cells(&d.function);
        let mut parents: Vec<(usize, usize)> = Vec::new();
        let mut i: usize = 0;
        while i < refs.len()
            invariant
                i <= refs.len(),
                parents@.len() == i,
                forall|j: int| 0 <= j < i ==> #[trigger] parents@[j] == pair_of(refs@[j]),
            decreases refs.len() - i,
        {
            let x = refs[i];
            parents.push((x.row, x.col));
            i += 1;
        }
        proof {
            assert forall|p: (usize, usize)| parents@.contains(p) <==> refs@.contains(cell_of(p)) by {
                if parents@.contains(p) {
                    let j = choose|j: int| 0 <= j < parents@.len() && parents@[j] == p;
                    assert(refs@[j] == cell_of(p));
                }
                if refs@.contains(cell_of(p)) {
                    let j = choose|j: int| 0 <= j < refs@.len() && refs@[j] == cell_of(p);
                    assert(parents@[j] == p);
                }
            }
        }
        (parents, copy_pairs(&d.dependents))
    }

    /// A copy of every cell record, row by row, for an undo/redo history.
    pub fn create_snapshot(&self) -> (r: Vec<Vec<CellData>>)
        requires
            self.structure_ok(),
        ensures
            is_copy_of(snapshot_view(r), self.cells(), self.num_rows(), self.num_cols()),
    {
        let ghost g = self.cells();
        let ghost rows = self.num_rows();
        let ghost cols = self.num_cols();
        proof {
            self.lemma_cells();
        }
        let mut snap: Vec<Vec<CellData>> = Vec::new();
        let mut r: usize = 0;
        while r < self.rows
            invariant
                g == self.cells(),
                self.structure_ok(),
                rows == self.num_rows(),
                cols == self.num_cols(),
                self.grid@.len() == rows,
                r <= rows,
                snap@.len() == r,
                forall|a: int| 0 <= a < r ==> (#[trigger] snap@[a])@.len() == cols,
                forall|c: Cell| c.row < r && c.col < cols ==> same_cell(#[trigger] snap@[c.row as int]@[c.col as int], at(g, c)),
            decreases rows - r,
        {
            let mut row: Vec<CellData> = Vec::new();
            let mut k: usize = 0;
            while k < self.cols
                invariant
                    g == self.cells(),
                    self.structure_ok(),
                    rows == self.num_rows(),
                    cols == self.num_cols(),
                    self.grid@.len() == rows,
                    r < rows,
                    k <= cols,
                    row@.len() == k,
                    forall|b: int| 0 <= b < k ==> same_cell(#[trigger] row@[b], at(g, Cell { row: r, col: b as usize })),
                decreases cols - k,
            {
                proof {
                    self.lemma_cell_at(Cell { row: r, col: k });
                }
                row.push(copy_cell(&self.grid[r][k]));
                k += 1;
            }
            let ghost before = snap@;
            snap.push(row);
            proof {
                assert forall|c: Cell| c.row < r + 1 && c.col < cols implies same_cell(#[trigger] snap@[c.row as int]@[c.col as int], at(g, c)) by {
                    if c.row < r {
                        assert(snap@[c.row as int] == before[c.row as int]);
                    } else {
                        assert(snap@[c.row as int] == row);
                        assert(c == (Cell { row: r, col: c.col }));
                    }
                }
            }
            r += 1;
        }
        proof {
            let v = snapshot_view(snap);
            assert forall|c: Cell| in_grid(c, rows, cols) implies same_cell(#[trigger] at(v, c), at(g, c)) by {
                assert(v[c.row as int] == snap@[c.row as int]@);
            }
        }
        snap
    }

    /// Replaces every cell record by the snapshot's.
    pub fn apply_snapshot(&mut self, snapshot: Vec<Vec<CellData>>)
        requires
            old(self).wf(),
            cells_wf(snapshot_view(snapshot), old(self).num_rows(), old(self).num_cols()),
            graph_consistent(snapshot_view(snapshot), old(self).num_rows(), old(self).num_cols()),
            acyclic(snapshot_view(snapshot), old(self).num_rows(), old(self).num_cols()),
            settled(snapshot_view(snapshot), old(self).num_rows(), old(self).num_cols()),
        ensures
            final(self).wf(),
            final(self).num_rows() == old(self).num_rows(),
            final(self).num_cols() == old(self).num_cols(),
            final(self).cells() == snapshot_view(snapshot),
            final(self).side() == old(self).side(),
    {
        self.grid = snapshot;
    }
}

impl Backend {
    /// Parses formula text for this grid; the flag tells success, and on
    /// failure the formula is the placeholder `Constant(0)`.
    pub fn parse_expression(&self, expression: &str) -> (r: (Function, bool))
        ensures
            r == crate::parser::with_success(parse_spec(expression@, self.num_rows(), self.num_cols())),
    {
        crate::parser::parse_expression(expression, self)
    }
}

impl Backend {
    /// The file name of a `load(<name>)` or `save(<name>)` command.
    pub fn parse_load_or_save_cmd(expression: &str) -> (r: Option<String>)
        requires
            expression@.len() >= 5,
        ensures
            match (r, crate::parser::load_or_save_spec(expression@)) {
                (Some(a), Some(b)) => a@ == b,
                (None, None) => true,
                _ => false,
            },
    {
        crate::parser::parse_load_or_save_cmd(expression)
    }

    /// The corners of a `copy(<a>:<b>)` or `cut(<a>:<b>)` command on this grid.
    pub fn parse_cut_or_copy(&self, expression: &str) -> (r: Result<(Cell, Cell), crate::parser::CommandError>)
        requires
            expression@.len() >= 4,
        ensures
            r == crate::parser::cut_or_copy_spec(expression@, self.num_rows(), self.num_cols()),
    {
        crate::parser::parse_cut_or_copy(self, expression)
    }

    /// The destination of a `paste(<cell>)` command on this grid.
    pub fn parse_paste(&self, expression: &str) -> (r: Result<Cell, crate::parser::CommandError>)
        requires
            expression@.len() >= 6,
        ensures
            r == crate::parser::paste_spec(expression@, self.num_rows(), self.num_cols()),
    {
        crate::parser::parse_paste(self, expression)
    }

    /// The source corners and destination of an `autofill(<a>:<b>,<c>)` command on this grid.
    pub fn parse_autofill(&self, expression: &str) -> (r: Result<(Cell, Cell, Cell), crate::parser::CommandError>)
        requires
            expression@.len() >= 9,
        ensures
            r == crate::parser::autofill_spec(expression@, self.num_rows(), self.num_cols()),
    {
        crate::parser::parse_autofill(self, expression)
    }

    /// The corners and order of a `sorta(<a>:<b>)` / `sortd(<a>:<b>)` command on this grid.
    pub fn parse_sort(&self, expression: &str) -> (r: Result<(Cell, Cell, bool), crate::parser::CommandError>)
        requires
            expression@.len() >= 6,
        ensures
            r == crate::parser::sort_spec(expression@, self.num_rows(), self.num_cols()),
    {
        crate::parser::parse_sort(self, expression)
    }
}

/// The text of an integer: an optional `-`, then its decimal digits.
fn integer_text(v: i32) -> (r: String)
    ensures
        r@ == crate::cli::integer_chars(v),
{
    if v < 0 {
        let mut t: Vec<char> = Vec::new();
        t.push('-');
        let m: usize = (0 - v as i64) as usize;
        crate::cli::append(&mut t, &crate::cli::decimal_chars(m));
        crate::text::string_from(&t)
    } else {
        crate::text::string_from(&crate::cli::decimal_chars(v as usize))
    }
}

impl Backend {
    /// Saves the current state on the undo history, dropping the oldest of
    /// a hundred.
    pub fn push_undo_state(&mut self)
        requires
            old(self).wf(),
        ensures
            final(self).wf(),
            final(self).cells() == old(self).cells(),
            final(self).num_rows() == old(self).num_rows(),
            final(self).num_cols() == old(self).num_cols(),
            final(self).redo_history() == old(self).redo_history(),
            final(self).clipboard() == old(self).clipboard(),
            final(self).undo_history().len() > 0,
            is_copy_of(snapshot_view(final(self).undo_history().last()), old(self).cells(), old(self).num_rows(), old(self).num_cols()),
            old(self).undo_history().len() < 100 ==> final(self).undo_history().drop_last() == old(self).undo_history(),
            old(self).undo_history().len() >= 100 ==> final(self).undo_history().drop_last() == old(self).undo_history().drop_first(),
    {
        let snap = self.create_snapshot();
        proof {
            lemma_copy_wf(snapshot_view(snap), self.cells(), self.num_rows(), self.num_cols());
        }
        let ghost h0 = self.undo_stack@;
        if self.undo_stack.len() >= 100 {
            self.undo_stack.remove(0);
            assert(self.undo_stack@ =~= h0.drop_first());
        }
        let ghost h1 = self.undo_stack@;
        self.undo_stack.push(snap);
        proof {
            assert(self.undo_stack@.drop_last() =~= h1);
            assert forall|k: int| 0 <= k < self.undo_stack@.len() implies cells_wf(snapshot_view(#[trigger] self.undo_stack@[k]), self.num_rows(), self.num_cols())
                && graph_consistent(snapshot_view(self.undo_stack@[k]), self.num_rows(), self.num_cols())
                && acyclic(snapshot_view(self.undo_stack@[k]), self.num_rows(), self.num_cols())
                && settled(snapshot_view(self.undo_stack@[k]), self.num_rows(), self.num_cols()) by {
                if k < h1.len() {
                    if h0.len() >= 100 {
                        assert(h1[k] == h0[k + 1]);
                    } else {
                        assert(h1[k] == h0[k]);
                    }
                }
            }
        }
    }

    /// Goes back to the last saved state; the current one goes on the redo
    /// history. Nothing happens when there is nothing to undo.
    pub fn undo_callback(&mut self)
        requires
            old(self).wf(),
        ensures
            final(self).wf(),
            final(self).num_rows() == old(self).num_rows(),
            final(self).num_cols() == old(self).num_cols(),
            old(self).undo_history().len() == 0 ==> *final(self) == *old(self),
            old(self).undo_history().len() > 0 ==> {
                &&& final(self).cells() == snapshot_view(old(self).undo_history().last())
                &&& final(self).undo_history() == old(self).undo_history().drop_last()
                &&& final(self).redo_history().drop_last() == old(self).redo_history()
                &&& final(self).redo_history().len() == old(self).redo_history().len() + 1
                &&& is_copy_of(snapshot_view(final(self).redo_history().last()), old(self).cells(), old(self).num_rows(), old(self).num_cols())
            },
    {
        let ghost h0 = self.undo_stack@;
        if self.undo_stack.len() > 0 {
            let prev = self.undo_stack.pop().unwrap();
            let cur = self.create_snapshot();
            proof {
                lemma_copy_wf(snapshot_view(cur), self.cells(), self.num_rows(), self.num_cols());
                assert(h0[h0.len() - 1] == prev);
            }
            let ghost r0 = self.redo_stack@;
            self.redo_stack.push(cur);
            self.grid = prev;
            proof {
                assert(self.redo_stack@.drop_last() =~= r0);
                assert forall|k: int| 0 <= k < self.redo_stack@.len() implies cells_wf(snapshot_view(#[trigger] self.redo_stack@[k]), self.num_rows(), self.num_cols())
                    && graph_consistent(snapshot_view(self.redo_stack@[k]), self.num_rows(), self.num_cols())
                    && acyclic(snapshot_view(self.redo_stack@[k]), self.num_rows(), self.num_cols())
                    && settled(snapshot_view(self.redo_stack@[k]), self.num_rows(), self.num_cols()) by {
                    if k < r0.len() {
                        assert(self.redo_stack@[k] == r0[k]);
                    }
                }
                assert forall|k: int| 0 <= k < self.undo_stack@.len() implies cells_wf(snapshot_view(#[trigger] self.undo_stack@[k]), self.num_rows(), self.num_cols())
                    && graph_consistent(snapshot_view(self.undo_stack@[k]), self.num_rows(), self.num_cols())
                && acyclic(snapshot_view(self.undo_stack@[k]), self.num_rows(), self.num_cols())
                && settled(snapshot_view(self.undo_stack@[k]), self.num_rows(), self.num_cols()) by {
                    assert(self.undo_stack@[k] == h0[k]);
                }
            }
        }
    }

    /// Goes forward to the last undone state; the current one goes on the
    /// undo history. Nothing happens when there is nothing to redo.
    pub fn redo_callback(&mut self)
        requires
            old(self).wf(),
        ensures
            final(self).wf(),
            final(self).num_rows() == old(self).num_rows(),
            final(self).num_cols() == old(self).num_cols(),
            old(self).redo_history().len() == 0 ==> *final(self) == *old(self),
            old(self).redo_history().len() > 0 ==> {
                &&& final(self).cells() == snapshot_view(old(self).redo_history().last())
                &&& final(self).redo_history() == old(self).redo_history().drop_last()
                &&& final(self).undo_history().drop_last() == old(self).undo_history()
                &&& final(self).undo_history().len() == old(self).undo_history().len() + 1
                &&& is_copy_of(snapshot_view(final(self).undo_history().last()), old(self).cells(), old(self).num_rows(), old(self).num_cols())
            },
    {
        let ghost h0 = self.redo_stack@;
        if self.redo_stack.len() > 0 {
            let next = self.redo_stack.pop().unwrap();
            let cur = self.create_snapshot();
            proof {
                lemma_copy_wf(snapshot_view(cur), self.cells(), self.num_rows(), self.num_cols());
                assert(h0[h0.len() - 1] == next);
            }
            let ghost u0 = self.undo_stack@;
            self.undo_stack.push(cur);
            self.grid = next;
            proof {
                assert(self.undo_stack@.drop_last() =~= u0);
                assert forall|k: int| 0 <= k < self.undo_stack@.len() implies cells_wf(snapshot_view(#[trigger] self.undo_stack@[k]), self.num_rows(), self.num_cols())
                    && graph_consistent(snapshot_view(self.undo_stack@[k]), self.num_rows(), self.num_cols())
                && acyclic(snapshot_view(self.undo_stack@[k]), self.num_rows(), self.num_cols())
                && settled(snapshot_view(self.undo_stack@[k]), self.num_rows(), self.num_cols()) by {
                    if k < u0.len() {
                        assert(self.undo_stack@[k] == u0[k]);
                    }
                }
                assert forall|k: int| 0 <= k < self.redo_stack@.len() implies cells_wf(snapshot_view(#[trigger] self.redo_stack@[k]), self.num_rows(), self.num_cols())
                    && graph_consistent(snapshot_view(self.redo_stack@[k]), self.num_rows(), self.num_cols())
                    && acyclic(snapshot_view(self.redo_stack@[k]), self.num_rows(), self.num_cols())
                    && settled(snapshot_view(self.redo_stack@[k]), self.num_rows(), self.num_cols()) by {
                    assert(self.redo_stack@[k] == h0[k]);
                }
            }
        }
    }

    /// The values of the cells from `tl` to `br`, row by row.
    fn values_in(&self, tl: Cell, br: Cell) -> (r: Vec<Vec<i32>>)
        requires
            self.structure_ok(),
            tl.row <= br.row ==> br.row < self.num_rows(),
            tl.col <= br.col ==> br.col < self.num_cols(),
        ensures
            r@.map_values(|v: Vec<i32>| v@) == rect_values(self.cells(), tl, br),
    {
        let mut out: Vec<Vec<i32>> = Vec::new();
        if tl.row > br.row {
            assert(out@.map_values(|v: Vec<i32>| v@) =~= rect_values(self.cells(), tl, br));
            return out;
        }
        let ghost want = rect_values(self.cells(), tl, br);
        let mut r = tl.row;
        while r <= br.row
            invariant
                self.structure_ok(),
                tl.row <= r <= br.row + 1,
                br.row < self.num_rows(),
                tl.col <= br.col ==> br.col < self.num_cols(),
                want == rect_values(self.cells(), tl, br),
                out@.len() == r - tl.row,
                forall|i: int| 0 <= i < out@.len() ==> (#[trigger] out@[i])@ == want[i],
            decreases br.row + 1 - r,
        {
            let mut line: Vec<i32> = Vec::new();
            if tl.col <= br.col {
                let mut k = tl.col;
                while k <= br.col
                    invariant
                        self.structure_ok(),
                        tl.row <= r <= br.row,
                        br.row < self.num_rows(),
                        tl.col <= k <= br.col + 1,
                        br.col < self.num_cols(),
                        want == rect_values(self.cells(), tl, br),
                        line@.len() == k - tl.col,
                        forall|j: int| 0 <= j < line@.len() ==> line@[j] == want[r - tl.row][j],
                    decreases br.col + 1 - k,
                {
                    line.push(self.get_cell_value(r, k).value);
                    assert(want[r - tl.row][k - tl.col] == self.cell_at(Cell { row: r, col: k }).value);
                    k += 1;
                }
            }
            assert(line@ =~= want[r - tl.row]);
            out.push(line);
            r += 1;
        }
        assert(out@.map_values(|v: Vec<i32>| v@) =~= want);
        out
    }

    /// `copy(<a>:<b>)`: puts the values of the range on the clipboard.
    pub fn copy(&mut self, expression: &str) -> (r: Result<(), crate::parser::CommandError>)
        requires
            old(self).wf(),
            expression@.len() >= 4,
        ensures
            final(self).wf(),
            final(self).cells() == old(self).cells(),
            final(self).num_rows() == old(self).num_rows(),
            final(self).num_cols() == old(self).num_cols(),
            final(self).undo_history() == old(self).undo_history(),
            final(self).redo_history() == old(self).redo_history(),
            match crate::parser::cut_or_copy_spec(expression@, old(self).num_rows(), old(self).num_cols()) {
                Ok((a, b)) => r is Ok && final(self).clipboard() == rect_values(old(self).cells(), a, b),
                Err(e) => r == Err::<(), crate::parser::CommandError>(e) && *final(self) == *old(self),
            },
    {
        let (tl, br) = match self.parse_cut_or_copy(expression) {
            Ok(p) => p,
            Err(e) => return Err(e),
        };
        let data = self.values_in(tl, br);
        self.copy_stack = data;
        Ok(())
    }

    /// `cut(<a>:<b>)`: puts the values of the range on the clipboard, then
    /// sets every cell of the range to `0`.
    pub fn cut(&mut self, expression: &str) -> (r: Result<(), crate::parser::CommandError>)
        requires
            old(self).wf(),
            expression@.len() >= 4,
        ensures
            final(self).wf(),
            final(self).num_rows() == old(self).num_rows(),
            final(self).num_cols() == old(self).num_cols(),
            match crate::parser::cut_or_copy_spec(expression@, old(self).num_rows(), old(self).num_cols()) {
                Ok((a, b)) => r is Ok && final(self).clipboard() == rect_values(old(self).cells(), a, b),
                Err(e) => r == Err::<(), crate::parser::CommandError>(e) && *final(self) == *old(self),
            },
    {
        let (tl, br) = match self.parse_cut_or_copy(expression) {
            Ok(p) => p,
            Err(e) => return Err(e),
        };
        let data = self.values_in(tl, br);
        self.copy_stack = data;
        let ghost clip = self.clipboard();
        if tl.row <= br.row && tl.col <= br.col {
            let mut r = tl.row;
            while r <= br.row
                invariant
                    self.wf(),
                    self.clipboard() == clip,
                    tl.row <= r <= br.row + 1,
                    tl.col <= br.col,
                    br.row < self.num_rows(),
                    br.col < self.num_cols(),
                    self.num_rows() == old(self).num_rows(),
                    self.num_cols() == old(self).num_cols(),
                decreases br.row + 1 - r,
            {
                let mut k = tl.col;
                while k <= br.col
                    invariant
                        self.wf(),
                        self.clipboard() == clip,
                        tl.row <= r <= br.row,
                        tl.col <= k <= br.col + 1,
                        br.row < self.num_rows(),
                        br.col < self.num_cols(),
                        self.num_rows() == old(self).num_rows(),
                        self.num_cols() == old(self).num_cols(),
                    decreases br.col + 1 - k,
                {
                    let _ = self.set_cell_value(Cell { row: r, col: k }, "0");
                    k += 1;
                }
                r += 1;
            }
        }
        Ok(())
    }

    /// `paste(<cell>)`: sets the block of cells starting at `<cell>` to the
    /// clipboard's values, each as a constant.
    pub fn paste(&mut self, expression: &str) -> (r: Result<(), crate::parser::CommandError>)
        requires
            old(self).wf(),
            expression@.len() >= 6,
        ensures
            final(self).wf(),
            final(self).num_rows() == old(self).num_rows(),
            final(self).num_cols() == old(self).num_cols(),
            final(self).clipboard() == old(self).clipboard(),
            match crate::parser::paste_spec(expression@, old(self).num_rows(), old(self).num_cols()) {
                Err(e) => r == Err::<(), crate::parser::CommandError>(e) && *final(self) == *old(self),
                Ok(c) => {
                    let clip = old(self).clipboard();
                    if clip.len() == 0 || clip[0].len() == 0 {
                        r == Err::<(), crate::parser::CommandError>(crate::parser::CommandError::NothingToPaste) && *final(self) == *old(self)
                    } else if c.row + clip.len() > old(self).num_rows() || c.col + clip[0].len() > old(self).num_cols() {
                        r == Err::<(), crate::parser::CommandError>(crate::parser::CommandError::PasteOutOfGrid) && *final(self) == *old(self)
                    } else {
                        &&& r is Ok
                        &&& forall|x: Cell| pasted_at(c, clip, x) ==> ({
                            let v = clip[x.row - c.row][x.col - c.col];
                            &&& (#[trigger] final(self).cell_at(x)).function
                                == (Function { type_: FunctionType::Constant, data: FunctionData::Value(v) })
                            &&& final(self).cell_at(x).value == v
                            &&& final(self).cell_at(x).error == CellError::NoError
                        })
                    }
                },
            },
    {
        let tl = match self.parse_paste(expression) {
            Ok(c) => c,
            Err(e) => return Err(e),
        };
        let ghost clip = self.clipboard();
        let h = self.copy_stack.len();
        if h == 0 || self.copy_stack[0].len() == 0 {
            return Err(crate::parser::CommandError::NothingToPaste);
        }
        let w = self.copy_stack[0].len();
        assert(clip[0].len() == w);
        if h > self.rows || tl.row > self.rows - h || w > self.cols || tl.col > self.cols - w {
            return Err(crate::parser::CommandError::PasteOutOfGrid);
        }
        let mut i: usize = 0;
        while i < h
            invariant
                self.wf(),
                self.clipboard() == clip,
                clip.len() == h,
                clip[0].len() == w,
                self.copy_stack@.len() == h,
                i <= h,
                tl.row + h <= self.num_rows(),
                tl.col + w <= self.num_cols(),
                self.num_rows() == old(self).num_rows(),
                self.num_cols() == old(self).num_cols(),
                forall|x: Cell| pasted_at(tl, clip, x) && x.row < tl.row + i ==> (#[trigger] self.cell_at(x)).function
                    == (Function { type_: FunctionType::Constant, data: FunctionData::Value(clip[x.row - tl.row][x.col - tl.col]) }),
            decreases h - i,
        {
            let mut j: usize = 0;
            while j < w
                invariant
                    self.wf(),
                    self.clipboard() == clip,
                    clip.len() == h,
                    clip[0].len() == w,
                    self.copy_stack@.len() == h,
                    i < h,
                    j <= w,
                    tl.row + h <= self.num_rows(),
                    tl.col + w <= self.num_cols(),
                    self.num_rows() == old(self).num_rows(),
                    self.num_cols() == old(self).num_cols(),
                    forall|x: Cell| pasted_at(tl, clip, x) && (x.row < tl.row + i || (x.row == tl.row + i && x.col < tl.col + j))
                        ==> (#[trigger] self.cell_at(x)).function
                        == (Function { type_: FunctionType::Constant, data: FunctionData::Value(clip[x.row - tl.row][x.col - tl.col]) }),
                decreases w - j,
            {
                if j < self.copy_stack[i].len() {
                    let v = self.copy_stack[i][j];
                    assert(v == clip[i as int][j as int]);
                    let text = integer_text(v);
                    proof {
                        crate::cli::lemma_integer_parses(v, self.num_rows(), self.num_cols());
                    }
                    let cell = Cell { row: tl.row + i, col: tl.col + j };
                    let ghost before = self.cells();
                    let _ = self.set_cell_value(cell, text.as_str());
                    assert(self.cell_at(cell).function == (Function { type_: FunctionType::Constant, data: FunctionData::Value(v) }));
                    assert forall|x: Cell| pasted_at(tl, clip, x) && (x.row < tl.row + i || (x.row == tl.row + i && x.col < tl.col + j + 1))
                        implies (#[trigger] self.cell_at(x)).function
                        == (Function { type_: FunctionType::Constant, data: FunctionData::Value(clip[x.row - tl.row][x.col - tl.col]) }) by {
                        if x != cell {
                            assert(self.contains(x));
                            assert(self.cell_at(x).function == at(before, x).function);
                        }
                    }
                } else {
                    assert(clip[i as int].len() <= j);
                }
                j += 1;
            }
            i += 1;
        }
        proof {
            assert forall|x: Cell| pasted_at(tl, clip, x) implies ({
                let v = clip[x.row - tl.row][x.col - tl.col];
                &&& (#[trigger] self.cell_at(x)).function == (Function { type_: FunctionType::Constant, data: FunctionData::Value(v) })
                &&& self.cell_at(x).value == v
                &&& self.cell_at(x).error == CellError::NoError
            }) by {
                assert(settled_at(self.cells(), x));
            }
        }
        Ok(())
    }
}

} // verus!
