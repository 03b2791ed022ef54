//! The grid as a mathematical object: cells, formulas that read them, the
//! dependents graph and its paths, and the facts about them that the
//! engine's proofs use.
use vstd::prelude::*;
use crate::eval::{
    block_cells, eval_spec, first_error, operand_result, range_cells, range_result, row_cells,
    values_of,
};
use crate::parser::parse_spec;
use crate::structs::{
    BinaryOp, Cell, CellData, CellError, Function, FunctionData, Operand, OperandData,
    RangeFunction,
};

verus! {

/// `c` lies inside a grid of `rows` x `cols`.
pub open spec fn in_grid(c: Cell, rows: int, cols: int) -> bool {
    c.row < rows && c.col < cols
}

pub open spec fn operand_in_grid(op: Operand, rows: int, cols: int) -> bool {
    match op.data {
        OperandData::Cell(c) => in_grid(c, rows, cols),
        OperandData::Value(_) => true,
    }
}

/// Every cell that `f` reads lies inside the grid, and a range is ordered.
pub open spec fn formula_ok(f: Function, rows: int, cols: int) -> bool {
    match f.data {
        FunctionData::BinaryOp(b) => operand_in_grid(b.first, rows, cols) && operand_in_grid(b.second, rows, cols),
        FunctionData::RangeFunction(rf) => range_ok(rf, rows, cols),
        FunctionData::SleepValue(op) => operand_in_grid(op, rows, cols),
        FunctionData::Value(_) => true,
    }
}

pub open spec fn range_ok(rf: RangeFunction, rows: int, cols: int) -> bool {
    &&& rf.top_left.row <= rf.bottom_right.row
    &&& rf.top_left.col <= rf.bottom_right.col
    &&& in_grid(rf.bottom_right, rows, cols)
}

pub open spec fn operand_reads(op: Operand, c: Cell) -> bool {
    op.data == OperandData::Cell(c)
}

/// Formula `f` reads cell `c` directly, as an operand or inside its range.
pub open spec fn references(f: Function, c: Cell) -> bool {
    match f.data {
        FunctionData::BinaryOp(b) => operand_reads(b.first, c) || operand_reads(b.second, c),
        FunctionData::RangeFunction(rf) => rf.top_left.row <= c.row <= rf.bottom_right.row
            && rf.top_left.col <= c.col <= rf.bottom_right.col,
        FunctionData::SleepValue(op) => operand_reads(op, c),
        FunctionData::Value(_) => false,
    }
}

pub open spec fn pair_of(c: Cell) -> (usize, usize) {
    (c.row, c.col)
}

pub open spec fn cell_of(p: (usize, usize)) -> Cell {
    Cell { row: p.0, col: p.1 }
}

/// The record of cell `c` in the cell rows `g`.
pub open spec fn at(g: Seq<Seq<CellData>>, c: Cell) -> CellData {
    g[c.row as int][c.col as int]
}

/// There is an edge from `a` to `b`: `b` is listed among `a`'s dependents.
pub open spec fn edge(g: Seq<Seq<CellData>>, a: Cell, b: Cell) -> bool {
    at(g, a).dependents@.contains(pair_of(b))
}

/// `p` is a non-empty walk along dependents edges.
pub open spec fn is_walk(g: Seq<Seq<CellData>>, p: Seq<Cell>) -> bool {
    &&& p.len() >= 1
    &&& forall|i: int| 0 <= i < p.len() - 1 ==> edge(g, #[trigger] p[i], p[i + 1])
}

/// `b` is reachable from `a` along zero or more dependents edges.
pub open spec fn reaches(g: Seq<Seq<CellData>>, a: Cell, b: Cell) -> bool {
    exists|p: Seq<Cell>| is_walk(g, p) && p[0] == a && p.last() == b
}

/// `b` is reachable from `a` along one or more dependents edges.
pub open spec fn reaches_strictly(g: Seq<Seq<CellData>>, a: Cell, b: Cell) -> bool {
    exists|d: Cell| edge(g, a, d) && reaches(g, d, b)
}

/// The shape of the cell rows and each record's own invariant.
pub open spec fn cells_wf(g: Seq<Seq<CellData>>, rows: int, cols: int) -> bool {
    &&& g.len() == rows
    &&& rows * cols <= usize::MAX
    &&& forall|r: int| 0 <= r < rows ==> (#[trigger] g[r]).len() == cols
    &&& forall|c: Cell| in_grid(c, rows, cols) ==> formula_ok(#[trigger] at(g, c).function, rows, cols)
    &&& forall|c: Cell| in_grid(c, rows, cols) ==> (#[trigger] at(g, c)).dirty_parents == 0
    &&& forall|c: Cell, k: int| in_grid(c, rows, cols) && 0 <= k < at(g, c).dependents@.len()
        ==> in_grid(cell_of(#[trigger] at(g, c).dependents@[k]), rows, cols)
    &&& forall|c: Cell| in_grid(c, rows, cols) ==> (#[trigger] at(g, c)).dependents@.no_duplicates()
}

/// The cell an operand reads, if any, as a list.
pub open spec fn operand_list(op: Operand) -> Seq<Cell> {
    match op.data {
        OperandData::Cell(c) => seq![c],
        OperandData::Value(_) => seq![],
    }
}

/// The cells `(r, c0..=c1)`, left to right.
pub open spec fn row_list(r: int, c0: int, c1: int) -> Seq<Cell> {
    Seq::new((c1 - c0 + 1) as nat, |k: int| Cell { row: r as usize, col: (c0 + k) as usize })
}

/// The cells of rows `r0..=r`, columns `c0..=c1`, in row-major order.
pub open spec fn block_list(r0: int, r: int, c0: int, c1: int) -> Seq<Cell>
    decreases r - r0 + 1,
{
    if r < r0 {
        seq![]
    } else {
        block_list(r0, r - 1, c0, c1) + row_list(r, c0, c1)
    }
}

/// The cells a formula reads, in order: the first operand, then the second;
/// a range's cells in row-major order.
pub open spec fn ref_list(f: Function) -> Seq<Cell> {
    match f.data {
        FunctionData::BinaryOp(b) => operand_list(b.first) + operand_list(b.second),
        FunctionData::RangeFunction(rf) => block_list(rf.top_left.row as int, rf.bottom_right.row as int,
            rf.top_left.col as int, rf.bottom_right.col as int),
        FunctionData::SleepValue(op) => operand_list(op),
        FunctionData::Value(_) => seq![],
    }
}

/// `s` without any occurrence of `x`, the other entries in their order.
pub open spec fn remove_pair(s: Seq<(usize, usize)>, x: (usize, usize)) -> Seq<(usize, usize)>
    decreases s.len(),
{
    if s.len() == 0 {
        s
    } else if s.last() == x {
        remove_pair(s.drop_last(), x)
    } else {
        remove_pair(s.drop_last(), x).push(s.last())
    }
}

/// `s` with `x` appended unless it is listed already.
pub open spec fn add_once(s: Seq<(usize, usize)>, x: (usize, usize)) -> Seq<(usize, usize)> {
    if s.contains(x) {
        s
    } else {
        s.push(x)
    }
}

/// A dependents list after re-linking the cell `x`: its entry is dropped when
/// the old formula read this cell, then added once when the new one does.
pub open spec fn relinked(s: Seq<(usize, usize)>, x: (usize, usize), drop: bool, add: bool) -> Seq<(usize, usize)> {
    let t = if drop { remove_pair(s, x) } else { s };
    if add { add_once(t, x) } else { t }
}

pub(crate) proof fn lemma_remove_pair(s: Seq<(usize, usize)>, x: (usize, usize))
    ensures
        forall|y: (usize, usize)| remove_pair(s, x).contains(y) <==> (s.contains(y) && y != x),
        s.no_duplicates() ==> remove_pair(s, x).no_duplicates(),
        remove_pair(remove_pair(s, x), x) == remove_pair(s, x),
        !s.contains(x) ==> remove_pair(s, x) == s,
    decreases s.len(),
{
    if s.len() > 0 {
        let t = s.drop_last();
        lemma_remove_pair(t, x);
        let r = remove_pair(t, x);
        assert forall|y: (usize, usize)| remove_pair(s, x).contains(y) <==> (s.contains(y) && y != x) by {
            assert(s =~= t.push(s.last()));
            if s.contains(y) && y != x && y != s.last() {
                let j = choose|j: int| 0 <= j < s.len() && s[j] == y;
                assert(t[j] == y);
            }
            if r.contains(y) {
                let j = choose|j: int| 0 <= j < r.len() && r[j] == y;
                assert(r.push(s.last())[j] == y);
            }
            if s.last() != x {
                assert(r.push(s.last())[r.len() as int] == s.last());
                if r.push(s.last()).contains(y) {
                    let j = choose|j: int| 0 <= j < r.len() + 1 && r.push(s.last())[j] == y;
                    if j < r.len() {
                        assert(r[j] == y);
                    }
                }
            }
            if t.contains(y) {
                let j = choose|j: int| 0 <= j < t.len() && t[j] == y;
                assert(s[j] == y);
            }
        }
        if s.no_duplicates() {
            assert(t.no_duplicates()) by {
                assert forall|i: int, j: int| 0 <= i < t.len() && 0 <= j < t.len() && i != j implies t[i] != t[j] by {
                    assert(s[i] == t[i] && s[j] == t[j]);
                }
            }
            if s.last() != x {
                assert(!t.contains(s.last())) by {
                    if t.contains(s.last()) {
                        let j = choose|j: int| 0 <= j < t.len() && t[j] == s.last();
                        assert(s[j] == s[s.len() - 1]);
                    }
                }
                let q = r.push(s.last());
                assert forall|i: int, j: int| 0 <= i < q.len() && 0 <= j < q.len() && i != j implies q[i] != q[j] by {
                    if i == r.len() && j < r.len() {
                        assert(r.contains(r[j]));
                    }
                    if j == r.len() && i < r.len() {
                        assert(r.contains(r[i]));
                    }
                }
            }
        }
        if s.last() != x {
            assert(remove_pair(r.push(s.last()), x) == remove_pair(r, x).push(s.last())) by {
                assert(r.push(s.last()).drop_last() =~= r);
            }
        }
        if !s.contains(x) {
            assert(!t.contains(x)) by {
                if t.contains(x) {
                    let j = choose|j: int| 0 <= j < t.len() && t[j] == x;
                    assert(s[j] == x);
                }
            }
            assert(s[s.len() - 1] != x);
            assert(s =~= t.push(s.last()));
        }
    }
}

pub(crate) proof fn lemma_add_once(s: Seq<(usize, usize)>, x: (usize, usize))
    ensures
        forall|y: (usize, usize)| add_once(s, x).contains(y) <==> (s.contains(y) || y == x),
        s.no_duplicates() ==> add_once(s, x).no_duplicates(),
        add_once(add_once(s, x), x) == add_once(s, x),
{
    if !s.contains(x) {
        let q = s.push(x);
        assert(q[s.len() as int] == x);
        assert forall|y: (usize, usize)| q.contains(y) <==> (s.contains(y) || y == x) by {
            if s.contains(y) {
                let j = choose|j: int| 0 <= j < s.len() && s[j] == y;
                assert(q[j] == y);
            }
            if q.contains(y) && y != x {
                let j = choose|j: int| 0 <= j < q.len() && q[j] == y;
                assert(s[j] == y);
            }
        }
        if s.no_duplicates() {
            assert forall|i: int, j: int| 0 <= i < q.len() && 0 <= j < q.len() && i != j implies q[i] != q[j] by {
                if i == s.len() && j < s.len() {
                    assert(s.contains(s[j]));
                }
                if j == s.len() && i < s.len() {
                    assert(s.contains(s[i]));
                }
            }
        }
    }
}

/// The dependents lists agree with the formulas: `x` is listed among `p`'s
/// dependents exactly when `x`'s formula reads `p`.
pub open spec fn graph_consistent(g: Seq<Seq<CellData>>, rows: int, cols: int) -> bool {
    forall|p: Cell, x: Cell| in_grid(p, rows, cols) && in_grid(x, rows, cols) ==>
        (#[trigger] edge(g, p, x) <==> references(#[trigger] at(g, x).function, p))
}

/// Cell `c` holds what its formula evaluates to.
pub open spec fn settled_at(g: Seq<Seq<CellData>>, c: Cell) -> bool {
    (at(g, c).value, at(g, c).error) == eval_spec(g, at(g, c).function)
}

/// Every cell of the grid holds what its formula evaluates to.
pub open spec fn settled(g: Seq<Seq<CellData>>, rows: int, cols: int) -> bool {
    forall|c: Cell| in_grid(c, rows, cols) ==> #[trigger] settled_at(g, c)
}

/// No cell of the grid reaches itself along one or more dependents edges.
pub open spec fn acyclic(g: Seq<Seq<CellData>>, rows: int, cols: int) -> bool {
    forall|c: Cell| in_grid(c, rows, cols) ==> !#[trigger] reaches_strictly(g, c, c)
}


/// Every field of the record but its dependents list is the same.
pub open spec fn same_but_deps(a: CellData, b: CellData) -> bool {
    &&& a.value == b.value
    &&& a.function == b.function
    &&& a.error == b.error
    &&& a.dirty_parents == b.dirty_parents
}

/// The grid's shape, formulas inside it and dependents inside it.
pub open spec fn shape_ok(g: Seq<Seq<CellData>>, rows: int, cols: int) -> bool {
    &&& g.len() == rows
    &&& rows * cols <= usize::MAX
    &&& forall|r: int| 0 <= r < rows ==> (#[trigger] g[r]).len() == cols
    &&& forall|c: Cell| in_grid(c, rows, cols) ==> formula_ok(#[trigger] at(g, c).function, rows, cols)
    &&& forall|c: Cell, k: int| in_grid(c, rows, cols) && 0 <= k < at(g, c).dependents@.len()
        ==> in_grid(cell_of(#[trigger] at(g, c).dependents@[k]), rows, cols)
}

/// A cell that a formula inside the grid reads is inside the grid.
pub proof fn lemma_refs_in_grid(f: Function, c: Cell, rows: int, cols: int)
    requires
        formula_ok(f, rows, cols),
        references(f, c),
    ensures
        in_grid(c, rows, cols),
{
}

/// Some target is reachable from some seed.
pub open spec fn reaches_some(g: Seq<Seq<CellData>>, seeds: Seq<Cell>, targets: Seq<Cell>) -> bool {
    exists|a: Cell, b: Cell| seeds.contains(a) && targets.contains(b) && reaches(g, a, b)
}

/// Position of cell `c` in a row-major flat array of a grid with `cols` columns.
pub open spec fn flat_index(c: Cell, cols: int) -> int {
    c.row * cols + c.col
}

pub(crate) proof fn lemma_flat_index(a: Cell, b: Cell, rows: int, cols: int)
    requires
        in_grid(a, rows, cols),
        in_grid(b, rows, cols),
    ensures
        0 <= flat_index(a, cols) < rows * cols,
        0 <= flat_index(b, cols) < rows * cols,
        flat_index(a, cols) == flat_index(b, cols) ==> a == b,
{
    assert(0 <= flat_index(b, cols) < rows * cols) by (nonlinear_arith)
        requires
            b.row < rows,
            b.col < cols,
            b.row >= 0,
            b.col >= 0,
    ;
    assert(0 <= flat_index(a, cols) < rows * cols) by (nonlinear_arith)
        requires
            a.row < rows,
            a.col < cols,
            a.row >= 0,
            a.col >= 0,
    ;
    if flat_index(a, cols) == flat_index(b, cols) {
        assert(a.row == b.row && a.col == b.col) by (nonlinear_arith)
            requires
                a.row * cols + a.col == b.row * cols + b.col,
                0 <= a.col < cols,
                0 <= b.col < cols,
                a.row >= 0,
                b.row >= 0,
        ;
    }
}

pub open spec fn count_false(s: Seq<bool>) -> nat
    decreases s.len(),
{
    if s.len() == 0 {
        0
    } else {
        count_false(s.drop_last()) + if s.last() {
            0nat
        } else {
            1nat
        }
    }
}

pub(crate) proof fn lemma_count_false_set(s: Seq<bool>, i: int)
    requires
        0 <= i < s.len(),
        !s[i],
    ensures
        count_false(s.update(i, true)) + 1 == count_false(s),
    decreases s.len(),
{
    let t = s.update(i, true);
    if i == s.len() - 1 {
        assert(t.drop_last() =~= s.drop_last());
    } else {
        assert(t.drop_last() =~= s.drop_last().update(i, true));
        lemma_count_false_set(s.drop_last(), i);
    }
}

/// A walk extended by one edge is a walk.
pub(crate) proof fn lemma_walk_push(g: Seq<Seq<CellData>>, p: Seq<Cell>, d: Cell)
    requires
        is_walk(g, p),
        edge(g, p.last(), d),
    ensures
        is_walk(g, p.push(d)),
        p.push(d)[0] == p[0],
        p.push(d).last() == d,
{
    let q = p.push(d);
    assert forall|i: int| 0 <= i < q.len() - 1 implies edge(g, #[trigger] q[i], q[i + 1]) by {
        if i < p.len() - 1 {
            assert(q[i] == p[i] && q[i + 1] == p[i + 1]);
        }
    }
}

/// In a set of cells closed under edges, every cell reachable from a member is a member.
pub(crate) proof fn lemma_closed_reach(g: Seq<Seq<CellData>>, rows: int, cols: int, seen: Seq<bool>, p: Seq<Cell>)
    requires
        shape_ok(g, rows, cols),
        seen.len() == rows * cols,
        is_walk(g, p),
        in_grid(p[0], rows, cols),
        seen[flat_index(p[0], cols)],
        forall|c: Cell, d: Cell| in_grid(c, rows, cols) && seen[flat_index(c, cols)] && #[trigger] edge(g, c, d)
            ==> in_grid(d, rows, cols) && seen[flat_index(d, cols)],
    ensures
        in_grid(p.last(), rows, cols) && seen[flat_index(p.last(), cols)],
    decreases p.len(),
{
    if p.len() > 1 {
        let q = p.drop_last();
        assert forall|i: int| 0 <= i < q.len() - 1 implies edge(g, #[trigger] q[i], q[i + 1]) by {
            assert(edge(g, p[i], p[i + 1]));
        }
        lemma_closed_reach(g, rows, cols, seen, q);
        assert(edge(g, p[p.len() - 2], p[p.len() - 1]));
    }
}

/// A dependents edge out of a cell of the grid leads into the grid.
pub(crate) proof fn lemma_edge_in_grid(g: Seq<Seq<CellData>>, rows: int, cols: int, c: Cell, d: Cell)
    requires
        shape_ok(g, rows, cols),
        in_grid(c, rows, cols),
        edge(g, c, d),
    ensures
        in_grid(d, rows, cols),
{
    let deps = at(g, c).dependents@;
    let k = choose|k: int| 0 <= k < deps.len() && deps[k] == pair_of(d);
    assert(in_grid(cell_of(deps[k]), rows, cols));
    assert(cell_of(deps[k]) == d);
}

/// Every marked cell of the grid is no target and is reachable from a seed.
pub open spec fn marks_ok(g: Seq<Seq<CellData>>, rows: int, cols: int, seen: Seq<bool>, seeds: Seq<Cell>, targets: Seq<Cell>) -> bool {
    &&& seen.len() == rows * cols
    &&& forall|c: Cell| in_grid(c, rows, cols) && #[trigger] seen[flat_index(c, cols)] ==> !targets.contains(c)
        && exists|a: Cell| seeds.contains(a) && reaches(g, a, c)
}

/// Every cell on the stack is in the grid and marked.
pub open spec fn stack_ok(rows: int, cols: int, seen: Seq<bool>, stack: Seq<Cell>) -> bool {
    forall|k: int| 0 <= k < stack.len() ==> in_grid(#[trigger] stack[k], rows, cols) && seen[flat_index(stack[k], cols)]
}

/// Every marked cell off the stack, other than `open`, has all its successors marked.
pub open spec fn closed_but(g: Seq<Seq<CellData>>, rows: int, cols: int, seen: Seq<bool>, stack: Seq<Cell>, open: Option<Cell>) -> bool {
    forall|x: Cell, e: Cell| in_grid(x, rows, cols) && seen[flat_index(x, cols)] && !stack.contains(x)
        && open != Some(x) && #[trigger] edge(g, x, e) ==> seen[flat_index(e, cols)]
}

pub(crate) proof fn lemma_reaches_self(g: Seq<Seq<CellData>>, c: Cell)
    ensures
        reaches(g, c, c),
{
    let w = seq![c];
    assert(is_walk(g, w) && w[0] == c && w.last() == c);
}

pub(crate) proof fn lemma_reaches_step(g: Seq<Seq<CellData>>, a: Cell, c: Cell, d: Cell)
    requires
        reaches(g, a, c),
        edge(g, c, d),
    ensures
        reaches(g, a, d),
{
    let w = choose|w: Seq<Cell>| is_walk(g, w) && w[0] == a && w.last() == c;
    lemma_walk_push(g, w, d);
}

/// Two cell grids of one shape that agree on every cell's formula, dependents
/// and marker.
pub open spec fn same_structure(g1: Seq<Seq<CellData>>, g2: Seq<Seq<CellData>>, rows: int, cols: int) -> bool {
    &&& g2.len() == g1.len()
    &&& forall|r: int| 0 <= r < rows ==> (#[trigger] g2[r]).len() == g1[r].len()
    &&& forall|c: Cell| in_grid(c, rows, cols) ==> {
        &&& (#[trigger] at(g2, c)).function == at(g1, c).function
        &&& at(g2, c).dependents@ == at(g1, c).dependents@
        &&& at(g2, c).dirty_parents == at(g1, c).dirty_parents
    }
}

/// The invariant only looks at formulas, dependents and markers.
pub(crate) proof fn lemma_wf_transfer(g1: Seq<Seq<CellData>>, g2: Seq<Seq<CellData>>, rows: int, cols: int)
    requires
        cells_wf(g1, rows, cols),
        graph_consistent(g1, rows, cols),
        same_structure(g1, g2, rows, cols),
    ensures
        cells_wf(g2, rows, cols),
        graph_consistent(g2, rows, cols),
        shape_ok(g2, rows, cols),
        forall|a: Cell, b: Cell| in_grid(a, rows, cols) ==> (#[trigger] edge(g2, a, b) == edge(g1, a, b)),
        acyclic(g1, rows, cols) ==> acyclic(g2, rows, cols),
{
    assert forall|r: int| 0 <= r < rows implies (#[trigger] g2[r]).len() == cols by {
        assert(g1[r].len() == cols);
    }
    assert forall|c: Cell| in_grid(c, rows, cols) implies formula_ok(#[trigger] at(g2, c).function, rows, cols) by {
        assert(formula_ok(at(g1, c).function, rows, cols));
    }
    assert forall|c: Cell| in_grid(c, rows, cols) implies (#[trigger] at(g2, c)).dirty_parents == 0 by {
        assert(at(g1, c).dirty_parents == 0);
    }
    assert forall|c: Cell, k: int| in_grid(c, rows, cols) && 0 <= k < at(g2, c).dependents@.len()
        implies in_grid(cell_of(#[trigger] at(g2, c).dependents@[k]), rows, cols) by {
        assert(in_grid(cell_of(at(g1, c).dependents@[k]), rows, cols));
    }
    assert forall|c: Cell| in_grid(c, rows, cols) implies (#[trigger] at(g2, c)).dependents@.no_duplicates() by {
        assert(at(g1, c).dependents@.no_duplicates());
    }
    assert forall|p: Cell, x: Cell| in_grid(p, rows, cols) && in_grid(x, rows, cols) implies
        (#[trigger] edge(g2, p, x) <==> references(#[trigger] at(g2, x).function, p)) by {
        assert(edge(g1, p, x) <==> references(at(g1, x).function, p));
        assert(at(g2, p).dependents@ == at(g1, p).dependents@);
    }
    assert forall|a: Cell, b: Cell| in_grid(a, rows, cols) implies (#[trigger] edge(g2, a, b) == edge(g1, a, b)) by {
        assert(at(g2, a).dependents@ == at(g1, a).dependents@);
    }
    if acyclic(g1, rows, cols) {
        assert forall|c: Cell| in_grid(c, rows, cols) implies !#[trigger] reaches_strictly(g2, c, c) by {
            if reaches_strictly(g2, c, c) {
                let d = choose|d: Cell| edge(g2, c, d) && reaches(g2, d, c);
                lemma_edge_in_grid(g2, rows, cols, c, d);
                let w = choose|w: Seq<Cell>| is_walk(g2, w) && w[0] == d && w.last() == c;
                lemma_reaches_transfer(g2, g1, rows, cols, d, w);
                assert(edge(g1, c, d));
                assert(reaches_strictly(g1, c, c));
            }
        }
    }
}

pub(crate) proof fn lemma_same_structure_trans(g1: Seq<Seq<CellData>>, g2: Seq<Seq<CellData>>, g3: Seq<Seq<CellData>>, rows: int, cols: int)
    requires
        same_structure(g1, g2, rows, cols),
        same_structure(g2, g3, rows, cols),
    ensures
        same_structure(g1, g3, rows, cols),
{
    assert forall|r: int| 0 <= r < rows implies (#[trigger] g3[r]).len() == g1[r].len() by {
        assert(g2[r].len() == g1[r].len());
    }
    assert forall|c: Cell| in_grid(c, rows, cols) implies {
        &&& (#[trigger] at(g3, c)).function == at(g1, c).function
        &&& at(g3, c).dependents@ == at(g1, c).dependents@
        &&& at(g3, c).dirty_parents == at(g1, c).dirty_parents
    } by {
        assert(at(g2, c).function == at(g1, c).function);
    }
}

/// Progress of a recomputation from `root`: `flags` marks the cells that
/// `root` reaches (those to recompute), `done` those recomputed. A recomputed
/// cell holds its formula's value and every flagged cell it reads is
/// recomputed too; the other cells are as in `g0`.
pub open spec fn progress_ok(g0: Seq<Seq<CellData>>, g: Seq<Seq<CellData>>, rows: int, cols: int, root: Cell, flags: Seq<bool>, done: Seq<bool>) -> bool {
    &&& flags.len() == rows * cols
    &&& done.len() == rows * cols
    &&& forall|c: Cell| in_grid(c, rows, cols) ==> (flags[flat_index(c, cols)] <==> #[trigger] reaches_strictly(g0, root, c))
    &&& forall|c: Cell| in_grid(c, rows, cols) && #[trigger] done[flat_index(c, cols)] ==> flags[flat_index(c, cols)]
        && settled_at(g, c)
    &&& forall|c: Cell, p: Cell| in_grid(c, rows, cols) && in_grid(p, rows, cols) && done[flat_index(c, cols)]
        && #[trigger] references(at(g0, c).function, p) && flags[flat_index(p, cols)] ==> done[flat_index(p, cols)]
    &&& forall|c: Cell| in_grid(c, rows, cols) && !done[flat_index(c, cols)] ==> #[trigger] at(g, c) == at(g0, c)
}

/// Each cell of `stack` past the first is read by the one before it.
pub open spec fn read_chain(g: Seq<Seq<CellData>>, stack: Seq<Cell>) -> bool {
    forall|k: int| 0 <= k < stack.len() - 1 ==> edge(g, #[trigger] stack[k + 1], stack[k])
}

pub(crate) proof fn lemma_chain_reaches(g: Seq<Seq<CellData>>, stack: Seq<Cell>, j: int)
    requires
        read_chain(g, stack),
        0 <= j < stack.len(),
    ensures
        reaches(g, stack.last(), stack[j]),
    decreases stack.len() - j,
{
    if j == stack.len() - 1 {
        lemma_reaches_self(g, stack[j]);
    } else {
        lemma_chain_reaches(g, stack, j + 1);
        assert(edge(g, stack[j + 1], stack[j]));
        lemma_reaches_step(g, stack.last(), stack[j + 1], stack[j]);
    }
}

/// Cells that only `c` differs from read the same values.
pub(crate) proof fn lemma_eval_one_changed(g1: Seq<Seq<CellData>>, g2: Seq<Seq<CellData>>, rows: int, cols: int, c: Cell, f: Function)
    requires
        formula_ok(f, rows, cols),
        !references(f, c),
        forall|x: Cell| in_grid(x, rows, cols) && x != c ==> #[trigger] at(g2, x) == at(g1, x),
    ensures
        eval_spec(g1, f) == eval_spec(g2, f),
{
    assert forall|p: Cell| references(f, p) implies (#[trigger] at(g1, p)).value == at(g2, p).value
        && at(g1, p).error == at(g2, p).error by {
        lemma_refs_in_grid(f, p, rows, cols);
        assert(at(g2, p) == at(g1, p));
    }
    lemma_eval_frame(g1, g2, f, rows, cols);
}

/// Two sequences of records with the same values and errors, position by position.
pub open spec fn same_results(s1: Seq<CellData>, s2: Seq<CellData>) -> bool {
    &&& s1.len() == s2.len()
    &&& forall|k: int| 0 <= k < s1.len() ==> (#[trigger] s1[k]).value == s2[k].value && s1[k].error == s2[k].error
}

pub(crate) proof fn lemma_same_results_agg(s1: Seq<CellData>, s2: Seq<CellData>)
    requires
        same_results(s1, s2),
    ensures
        first_error(s1) == first_error(s2),
        values_of(s1) == values_of(s2),
    decreases s1.len(),
{
    assert(values_of(s1) =~= values_of(s2));
    if s1.len() > 0 {
        let t1 = s1.drop_last();
        let t2 = s2.drop_last();
        assert(same_results(t1, t2)) by {
            assert forall|k: int| 0 <= k < t1.len() implies (#[trigger] t1[k]).value == t2[k].value && t1[k].error == t2[k].error by {
                assert(s1[k].value == s2[k].value);
            }
        }
        lemma_same_results_agg(t1, t2);
        assert(s1[s1.len() - 1].error == s2[s2.len() - 1].error);
    }
}

pub(crate) proof fn lemma_block_same(g1: Seq<Seq<CellData>>, g2: Seq<Seq<CellData>>, r0: int, r: int, c0: int, c1: int)
    requires
        0 <= r0,
        r <= usize::MAX,
        0 <= c0 <= c1 <= usize::MAX,
        forall|c: Cell| r0 <= c.row <= r && c0 <= c.col <= c1 ==> (#[trigger] at(g1, c)).value == at(g2, c).value
            && at(g1, c).error == at(g2, c).error,
    ensures
        same_results(block_cells(g1, r0, r, c0, c1), block_cells(g2, r0, r, c0, c1)),
    decreases r - r0 + 1,
{
    if r >= r0 {
        lemma_block_same(g1, g2, r0, r - 1, c0, c1);
        let a1 = block_cells(g1, r0, r - 1, c0, c1);
        let a2 = block_cells(g2, r0, r - 1, c0, c1);
        let b1 = row_cells(g1, r, c0, c1);
        let b2 = row_cells(g2, r, c0, c1);
        assert forall|k: int| 0 <= k < b1.len() implies (#[trigger] b1[k]).value == b2[k].value && b1[k].error == b2[k].error by {
            let c = Cell { row: r as usize, col: (c0 + k) as usize };
            assert(at(g1, c).value == at(g2, c).value);
        }
        let s1 = a1 + b1;
        let s2 = a2 + b2;
        assert forall|k: int| 0 <= k < s1.len() implies (#[trigger] s1[k]).value == s2[k].value && s1[k].error == s2[k].error by {
            if k < a1.len() {
                assert(a1[k].value == a2[k].value);
            } else {
                assert(b1[k - a1.len()].value == b2[k - a1.len()].value);
            }
        }
    }
}

/// What a formula evaluates to depends only on the values and errors of the
/// cells it reads.
pub proof fn lemma_eval_frame(g1: Seq<Seq<CellData>>, g2: Seq<Seq<CellData>>, f: Function, rows: int, cols: int)
    requires
        formula_ok(f, rows, cols),
        forall|c: Cell| references(f, c) ==> (#[trigger] at(g1, c)).value == at(g2, c).value
            && at(g1, c).error == at(g2, c).error,
    ensures
        eval_spec(g1, f) == eval_spec(g2, f),
{
    match f.data {
        FunctionData::RangeFunction(rf) => {
            assert forall|c: Cell| rf.top_left.row <= c.row <= rf.bottom_right.row && rf.top_left.col <= c.col
                <= rf.bottom_right.col implies (#[trigger] at(g1, c)).value == at(g2, c).value
                && at(g1, c).error == at(g2, c).error by {
                assert(references(f, c));
            }
            lemma_block_same(g1, g2, rf.top_left.row as int, rf.bottom_right.row as int, rf.top_left.col as int, rf.bottom_right.col as int);
            lemma_same_results_agg(range_cells(g1, rf), range_cells(g2, rf));
            assert(first_error(range_cells(g1, rf)) == first_error(range_cells(g2, rf)));
            assert(values_of(range_cells(g1, rf)) == values_of(range_cells(g2, rf)));
            assert(range_result(g1, f.type_, rf) == range_result(g2, f.type_, rf));
        },
        FunctionData::BinaryOp(b) => {
            if let OperandData::Cell(c) = b.first.data {
                assert(references(f, c));
                assert(at(g1, c).value == at(g2, c).value);
            }
            if let OperandData::Cell(c) = b.second.data {
                assert(references(f, c));
                assert(at(g1, c).value == at(g2, c).value);
            }
            assert(operand_result(g1, b.first) == operand_result(g2, b.first));
            assert(operand_result(g1, b.second) == operand_result(g2, b.second));
        },
        FunctionData::SleepValue(op) => {
            if let OperandData::Cell(c) = op.data {
                assert(references(f, c));
                assert(at(g1, c).value == at(g2, c).value);
            }
            assert(operand_result(g1, op) == operand_result(g2, op));
        },
        FunctionData::Value(_) => {},
    }
}

pub(crate) proof fn lemma_reaches_prepend(g: Seq<Seq<CellData>>, a: Cell, d: Cell, b: Cell)
    requires
        edge(g, a, d),
        reaches(g, d, b),
    ensures
        reaches(g, a, b),
{
    let w = choose|w: Seq<Cell>| is_walk(g, w) && w[0] == d && w.last() == b;
    let v = seq![a] + w;
    assert forall|i: int| 0 <= i < v.len() - 1 implies edge(g, #[trigger] v[i], v[i + 1]) by {
        if i > 0 {
            assert(v[i] == w[i - 1] && v[i + 1] == w[i]);
        }
    }
    assert(v[0] == a && v.last() == b);
}

/// A walk from `root` in a graph whose edges into cells other than `root`
/// are all edges of `g_old` shows `root` reaching its end in `g_old`.
pub(crate) proof fn lemma_walk_back(g_new: Seq<Seq<CellData>>, g_old: Seq<Seq<CellData>>, rows: int, cols: int, root: Cell, w: Seq<Cell>)
    requires
        shape_ok(g_new, rows, cols),
        in_grid(root, rows, cols),
        is_walk(g_new, w),
        w[0] == root,
        forall|a: Cell, b: Cell| in_grid(a, rows, cols) && in_grid(b, rows, cols) && b != root && #[trigger] edge(g_new, a, b)
            ==> edge(g_old, a, b),
    ensures
        in_grid(w.last(), rows, cols),
        reaches(g_old, root, w.last()),
    decreases w.len(),
{
    if w.len() == 1 {
        lemma_reaches_self(g_old, root);
    } else {
        let u = w.drop_last();
        assert forall|i: int| 0 <= i < u.len() - 1 implies edge(g_new, #[trigger] u[i], u[i + 1]) by {
            assert(edge(g_new, w[i], w[i + 1]));
        }
        lemma_walk_back(g_new, g_old, rows, cols, root, u);
        let a = u.last();
        let b = w.last();
        assert(edge(g_new, w[w.len() - 2], w[w.len() - 1]));
        lemma_edge_in_grid(g_new, rows, cols, a, b);
        if b == root {
            lemma_reaches_self(g_old, root);
        } else {
            lemma_reaches_step(g_old, root, a, b);
        }
    }
}

/// Reachability from an in-grid cell only depends on the edges out of cells
/// of the grid.
pub(crate) proof fn lemma_reaches_transfer(g1: Seq<Seq<CellData>>, g2: Seq<Seq<CellData>>, rows: int, cols: int, a: Cell, w: Seq<Cell>)
    requires
        shape_ok(g1, rows, cols),
        in_grid(a, rows, cols),
        is_walk(g1, w),
        w[0] == a,
        forall|x: Cell, y: Cell| in_grid(x, rows, cols) ==> (#[trigger] edge(g1, x, y) == edge(g2, x, y)),
    ensures
        in_grid(w.last(), rows, cols),
        reaches(g2, a, w.last()),
    decreases w.len(),
{
    if w.len() == 1 {
        lemma_reaches_self(g2, a);
    } else {
        let u = w.drop_last();
        assert forall|i: int| 0 <= i < u.len() - 1 implies edge(g1, #[trigger] u[i], u[i + 1]) by {
            assert(edge(g1, w[i], w[i + 1]));
        }
        lemma_reaches_transfer(g1, g2, rows, cols, a, u);
        assert(edge(g1, w[w.len() - 2], w[w.len() - 1]));
        lemma_edge_in_grid(g1, rows, cols, u.last(), w.last());
        lemma_reaches_step(g2, a, u.last(), w.last());
    }
}

/// A walk whose steps never enter `cell` uses only edges of `g_old`, when
/// every edge of `g_new` into another cell is one of `g_old`.
pub(crate) proof fn lemma_walk_old(g_new: Seq<Seq<CellData>>, g_old: Seq<Seq<CellData>>, rows: int, cols: int, cell: Cell, w: Seq<Cell>)
    requires
        shape_ok(g_new, rows, cols),
        is_walk(g_new, w),
        in_grid(w[0], rows, cols),
        forall|i: int| 1 <= i < w.len() ==> w[i] != cell,
        forall|a: Cell, b: Cell| in_grid(a, rows, cols) && in_grid(b, rows, cols) && b != cell && #[trigger] edge(g_new, a, b)
            ==> edge(g_old, a, b),
    ensures
        is_walk(g_old, w),
        in_grid(w.last(), rows, cols),
    decreases w.len(),
{
    if w.len() > 1 {
        let u = w.drop_last();
        assert forall|i: int| 0 <= i < u.len() - 1 implies edge(g_new, #[trigger] u[i], u[i + 1]) by {
            assert(edge(g_new, w[i], w[i + 1]));
        }
        lemma_walk_old(g_new, g_old, rows, cols, cell, u);
        let a = w[w.len() - 2];
        let b = w[w.len() - 1];
        assert(edge(g_new, a, b));
        assert(a == u.last());
        lemma_edge_in_grid(g_new, rows, cols, a, b);
        assert forall|i: int| 0 <= i < w.len() - 1 implies edge(g_old, #[trigger] w[i], w[i + 1]) by {
            if i < w.len() - 2 {
                assert(edge(g_old, u[i], u[i + 1]));
            }
        }
    }
}

/// Re-linking `cell` to read only cells that it does not reach keeps the
/// graph free of cycles.
pub(crate) proof fn lemma_install_acyclic(g0: Seq<Seq<CellData>>, g2: Seq<Seq<CellData>>, rows: int, cols: int, cell: Cell, f: Function)
    requires
        shape_ok(g2, rows, cols),
        in_grid(cell, rows, cols),
        acyclic(g0, rows, cols),
        forall|a: Cell, b: Cell| in_grid(a, rows, cols) && in_grid(b, rows, cols) && b != cell && #[trigger] edge(g2, a, b)
            ==> edge(g0, a, b),
        forall|a: Cell| in_grid(a, rows, cols) && #[trigger] edge(g2, a, cell) ==> references(f, a),
        forall|p: Cell| #[trigger] references(f, p) ==> !reaches(g0, cell, p),
    ensures
        acyclic(g2, rows, cols),
{
    assert forall|x: Cell| in_grid(x, rows, cols) implies !#[trigger] reaches_strictly(g2, x, x) by {
        if reaches_strictly(g2, x, x) {
            let d = choose|d: Cell| edge(g2, x, d) && reaches(g2, d, x);
            let w = choose|w: Seq<Cell>| is_walk(g2, w) && w[0] == d && w.last() == x;
            let u = seq![x] + w;
            assert forall|i: int| 0 <= i < u.len() - 1 implies edge(g2, #[trigger] u[i], u[i + 1]) by {
                if i > 0 {
                    assert(u[i] == w[i - 1] && u[i + 1] == w[i]);
                }
            }
            let n = u.len() - 1;
            assert(u[n] == x && u[0] == x);
            if exists|i: int| 1 <= i <= n && u[i] == cell {
                let i = choose|i: int| 1 <= i <= n && u[i] == cell;
                let q = u[i - 1];
                assert(edge(g2, q, cell));
                let v = u.subrange(i, n + 1) + u.subrange(1, i);
                assert(v[0] == cell);
                assert(v.last() == q);
                assert forall|k: int| 0 <= k < v.len() - 1 implies edge(g2, #[trigger] v[k], v[k + 1]) by {
                    let m = n + 1 - i;
                    if k < m - 1 {
                        assert(v[k] == u[i + k] && v[k + 1] == u[i + k + 1]);
                    } else if k == m - 1 {
                        assert(v[k] == u[n] && v[k + 1] == u[1]);
                        assert(edge(g2, u[0], u[1]));
                    } else {
                        assert(v[k] == u[k - m + 1] && v[k + 1] == u[k - m + 2]);
                    }
                }
                lemma_walk_back(g2, g0, rows, cols, cell, v);
                lemma_edge_in_grid(g2, rows, cols, q, cell);
                assert(in_grid(q, rows, cols)) by {
                    let pre = u.subrange(0, i);
                    assert forall|k: int| 0 <= k < pre.len() - 1 implies edge(g2, #[trigger] pre[k], pre[k + 1]) by {
                        assert(edge(g2, u[k], u[k + 1]));
                    }
                    lemma_reaches_transfer(g2, g2, rows, cols, x, pre);
                }
                assert(references(f, q));
            } else {
                lemma_walk_old(g2, g0, rows, cols, cell, u);
                let t = u.drop_first();
                assert(t =~= w);
                assert(edge(g0, u[0], u[1]));
                assert(edge(g0, x, d));
                assert(is_walk(g0, w));
                assert(reaches_strictly(g0, x, x));
            }
        }
    }
}

/// A parsed formula reads only cells inside the grid it was parsed for.
pub(crate) proof fn lemma_parse_ok(s: Seq<char>, rows: int, cols: int)
    requires
        0 <= rows <= usize::MAX,
        0 <= cols <= usize::MAX,
        parse_spec(s, rows, cols) is Some,
    ensures
        formula_ok(parse_spec(s, rows, cols)->Some_0, rows, cols),
{
}

/// Two records that hold the same data.
pub open spec fn same_cell(a: CellData, b: CellData) -> bool {
    &&& a.value == b.value
    &&& a.dependents@ == b.dependents@
    &&& a.function == b.function
    &&& a.error == b.error
    &&& a.dirty_parents == b.dirty_parents
}

/// `snap` holds, cell by cell, the same data as the cell rows `g`.
pub open spec fn is_copy_of(snap: Seq<Seq<CellData>>, g: Seq<Seq<CellData>>, rows: int, cols: int) -> bool {
    &&& snap.len() == rows
    &&& forall|r: int| 0 <= r < rows ==> (#[trigger] snap[r]).len() == cols
    &&& forall|c: Cell| in_grid(c, rows, cols) ==> same_cell(#[trigger] at(snap, c), at(g, c))
}

/// The view of a snapshot: its records row by row.
pub open spec fn snapshot_view(snapshot: Vec<Vec<CellData>>) -> Seq<Seq<CellData>> {
    snapshot@.map_values(|r: Vec<CellData>| r@)
}

/// A copy of a well-formed grid is well formed.
pub(crate) proof fn lemma_copy_wf(snap: Seq<Seq<CellData>>, g: Seq<Seq<CellData>>, rows: int, cols: int)
    requires
        is_copy_of(snap, g, rows, cols),
        cells_wf(g, rows, cols),
        graph_consistent(g, rows, cols),
        acyclic(g, rows, cols),
        settled(g, rows, cols),
    ensures
        cells_wf(snap, rows, cols),
        graph_consistent(snap, rows, cols),
        acyclic(snap, rows, cols),
        settled(snap, rows, cols),
{
    assert forall|r: int| 0 <= r < rows implies (#[trigger] snap[r]).len() == g[r].len() by {
        assert(g[r].len() == cols);
    }
    assert forall|c: Cell| in_grid(c, rows, cols) implies {
        &&& (#[trigger] at(snap, c)).function == at(g, c).function
        &&& at(snap, c).dependents@ == at(g, c).dependents@
        &&& at(snap, c).dirty_parents == at(g, c).dirty_parents
    } by {
        assert(same_cell(at(snap, c), at(g, c)));
    }
    lemma_wf_transfer(g, snap, rows, cols);
    assert forall|c: Cell| in_grid(c, rows, cols) implies #[trigger] settled_at(snap, c) by {
        let f = at(g, c).function;
        assert(settled_at(g, c));
        assert(formula_ok(f, rows, cols));
        assert forall|p: Cell| references(f, p) implies (#[trigger] at(snap, p)).value == at(g, p).value
            && at(snap, p).error == at(g, p).error by {
            lemma_refs_in_grid(f, p, rows, cols);
            assert(same_cell(at(snap, p), at(g, p)));
        }
        lemma_eval_frame(snap, g, f, rows, cols);
        assert(same_cell(at(snap, c), at(g, c)));
    }
}

/// The values of the cells from `tl` to `br`, row by row (none when the
/// corners are not ordered).
pub open spec fn rect_values(g: Seq<Seq<CellData>>, tl: Cell, br: Cell) -> Seq<Seq<i32>> {
    let h = if tl.row <= br.row { br.row - tl.row + 1 } else { 0 };
    let w = if tl.col <= br.col { br.col - tl.col + 1 } else { 0 };
    Seq::new(h as nat, |i: int| Seq::new(w as nat, |j: int| at(g, Cell { row: (tl.row + i) as usize, col: (tl.col + j) as usize }).value))
}

/// When the search has emptied its stack, no target is reachable from a seed.
pub(crate) proof fn lemma_search_done(g: Seq<Seq<CellData>>, rows: int, cols: int, seen: Seq<bool>, seeds: Seq<Cell>, targets: Seq<Cell>)
    requires
        shape_ok(g, rows, cols),
        forall|k: int| 0 <= k < seeds.len() ==> in_grid(#[trigger] seeds[k], rows, cols)
            && seen[flat_index(seeds[k], cols)],
        marks_ok(g, rows, cols, seen, seeds, targets),
        closed_but(g, rows, cols, seen, seq![], None),
    ensures
        !reaches_some(g, seeds, targets),
{
    assert forall|a: Cell, b: Cell| seeds.contains(a) && targets.contains(b) implies !reaches(g, a, b) by {
        if reaches(g, a, b) {
            let w = choose|w: Seq<Cell>| is_walk(g, w) && w[0] == a && w.last() == b;
            let j = choose|j: int| 0 <= j < seeds.len() && seeds[j] == a;
            assert(in_grid(seeds[j], rows, cols) && seen[flat_index(seeds[j], cols)]);
            assert forall|c: Cell, d: Cell| in_grid(c, rows, cols) && seen[flat_index(c, cols)] && #[trigger] edge(g, c, d)
                implies in_grid(d, rows, cols) && seen[flat_index(d, cols)] by {
                lemma_edge_in_grid(g, rows, cols, c, d);
                assert(!Seq::<Cell>::empty().contains(c));
            }
            lemma_closed_reach(g, rows, cols, seen, w);
        }
    }
}

/// Once a prefix of `s` carries an error, the first error of `s` is that of the prefix.
pub(crate) proof fn lemma_first_error_prefix(s: Seq<CellData>, p: Seq<CellData>)
    requires
        p.len() <= s.len(),
        p == s.take(p.len() as int),
        first_error(p) != CellError::NoError,
    ensures
        first_error(s) == first_error(p),
    decreases s.len(),
{
    if s.len() > p.len() {
        assert(s.drop_last().take(p.len() as int) =~= p);
        lemma_first_error_prefix(s.drop_last(), p);
    } else {
        assert(s =~= p);
    }
}

/// The first error of a block is met within its first `r - r0 + 1` rows if
/// those rows already carry one.
pub(crate) proof fn lemma_first_error_block(g: Seq<Seq<CellData>>, r0: int, r: int, r1: int, c0: int, c1: int)
    requires
        r0 <= r <= r1,
        c0 <= c1,
        first_error(block_cells(g, r0, r, c0, c1)) != CellError::NoError,
    ensures
        first_error(block_cells(g, r0, r1, c0, c1)) == first_error(block_cells(g, r0, r, c0, c1)),
    decreases r1 - r,
{
    if r1 > r {
        lemma_first_error_block(g, r0, r, r1 - 1, c0, c1);
        let s = block_cells(g, r0, r1, c0, c1);
        let p = block_cells(g, r0, r1 - 1, c0, c1);
        assert(s == p + row_cells(g, r1, c0, c1));
        assert(s.take(p.len() as int) =~= p);
        lemma_first_error_prefix(s, p);
    }
}
/// A cell that another cell reaches has an edge into it from a cell of the grid.
pub(crate) proof fn lemma_reached_has_edge(g: Seq<Seq<CellData>>, rows: int, cols: int, a: Cell, b: Cell)
    requires
        shape_ok(g, rows, cols),
        in_grid(a, rows, cols),
        reaches(g, a, b),
        a != b,
    ensures
        in_grid(b, rows, cols),
        exists|q: Cell| in_grid(q, rows, cols) && #[trigger] edge(g, q, b),
{
    let w = choose|w: Seq<Cell>| is_walk(g, w) && w[0] == a && w.last() == b;
    lemma_reaches_transfer(g, g, rows, cols, a, w);
    let u = w.drop_last();
    assert(w.len() >= 2);
    assert forall|i: int| 0 <= i < u.len() - 1 implies edge(g, #[trigger] u[i], u[i + 1]) by {
        assert(edge(g, w[i], w[i + 1]));
    }
    lemma_reaches_transfer(g, g, rows, cols, a, u);
    assert(edge(g, w[w.len() - 2], w[w.len() - 1]));
    assert(edge(g, u.last(), b));
}

} // verus!
