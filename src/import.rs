//! Flat import and export of the grid's values.
use vstd::prelude::*;
use crate::backend::Backend;
use crate::model::{at, edge, graph_consistent, in_grid, lemma_reached_has_edge, reaches, references, shape_ok};
use crate::parser::{formula_text, parse_spec};
use crate::text::{trim_text, trimmed};
use crate::structs::{Cell, CellData, Function, FunctionData, FunctionType};

verus! {

#[verifier::external_type_specification]
#[verifier::external_body]
pub struct ExCsvError(csv::Error);

/// The fields of each record of CSV text `data` (no header row), or `None`
/// where the text is not CSV with one field count throughout.
pub uninterp spec fn csv_fields(data: Seq<char>) -> Option<Seq<Seq<Seq<char>>>>;


pub open spec fn fields_view(rows: Seq<Vec<String>>) -> Seq<Seq<Seq<char>>> {
    rows.map_values(|row: Vec<String>| row@.map_values(|f: String| f@))
}

/// Relies on csv's `ReaderBuilder` with `has_headers(false)` and its
/// `records` iterator: the fields of every record, all records with as many
/// fields as the first (the builder is not flexible), or the reader's error.
#[verifier::external_body]
fn read_csv_fields(data: &str) -> (r: Result<Vec<Vec<String>>, csv::Error>)
    ensures
        match r {
            Ok(rows) => csv_fields(data@) == Some(fields_view(rows@))
                && forall|i: int| 0 <= i < rows@.len() ==> (#[trigger] rows@[i])@.len() == rows@[0]@.len(),
            Err(_) => csv_fields(data@) is None,
        },
{
    let mut rdr = csv::ReaderBuilder::new().has_headers(false).from_reader(data.as_bytes());
    rdr.records().map(|rec| rec.map(|rec| rec.iter().map(String::from).collect())).collect()
}


/// `p` comes before `q` in row-major order.
pub open spec fn before_in_rows(p: Cell, q: Cell) -> bool {
    p.row < q.row || (p.row == q.row && p.col < q.col)
}

/// The formula cell `here` holds after its field `text` was typed into it:
/// the field's formula when accepted, else the fresh `Constant(0)`, which
/// happens only when the field does not parse or its formula would close a
/// cycle, reading `here` itself or a cell imported before it.
pub open spec fn imported_formula(f: Function, text: Seq<char>, here: Cell, rows: int, cols: int) -> bool {
    let fresh = Function { type_: FunctionType::Constant, data: FunctionData::Value(0) };
    match parse_spec(formula_text(trimmed(text)), rows, cols) {
        Some(g) => f == g || (f == fresh && !(g.data is Value) && exists|p: Cell| #[trigger] references(g, p)
            && (p == here || before_in_rows(p, here))),
        None => f == fresh,
    }
}

/// An edit that `set_cell_value` turns down as a cycle, made while the cells
/// from `cell` on are fresh, reads `cell` or a cell before it.
proof fn lemma_rejection_cause(gb: Seq<Seq<CellData>>, rows: int, cols: int, cell: Cell, g: Function)
    requires
        shape_ok(gb, rows, cols),
        graph_consistent(gb, rows, cols),
        in_grid(cell, rows, cols),
        forall|x: Cell| in_grid(x, rows, cols) && !before_in_rows(x, cell)
            ==> #[trigger] at(gb, x).function == (Function { type_: FunctionType::Constant, data: FunctionData::Value(0) }),
        references(g, cell) || exists|p: Cell| #[trigger] references(g, p) && reaches(gb, cell, p),
    ensures
        exists|p: Cell| #[trigger] references(g, p) && (p == cell || before_in_rows(p, cell)),
{
    if !references(g, cell) {
        let p = choose|p: Cell| #[trigger] references(g, p) && reaches(gb, cell, p);
        if p != cell {
            lemma_reached_has_edge(gb, rows, cols, cell, p);
            let q = choose|q: Cell| in_grid(q, rows, cols) && #[trigger] edge(gb, q, p);
            assert(references(at(gb, p).function, q));
        }
        assert(references(g, p) && (p == cell || before_in_rows(p, cell)));
    }
}

/// Why an import was refused.
#[derive(Debug, Clone, Copy, PartialEq, Eq, Structural)]
pub enum ImportError {
    /// The text is not CSV with one field count throughout.
    Malformed,
    /// The grid would have more cells than an index can count.
    TooLarge,
    /// A field was not accepted as the formula of its cell.
    RejectedField,
}

/// The cell's formula is the one its field `text` denotes.
pub open spec fn accepted_formula(f: Function, text: Seq<char>, rows: int, cols: int) -> bool {
    parse_spec(formula_text(trimmed(text)), rows, cols) == Some(f)
}

impl Backend {
    /// Replaces the grid by one of the CSV text's dimensions (rows x fields of
    /// the first row) and sets each cell from its field, trimmed, as if typed
    /// in; a field that is rejected leaves its cell fresh.
    pub fn load_csv_from_str(&mut self, data: &str) -> (r: Result<(), ImportError>)
        requires
            old(self).wf(),
        ensures
            match csv_fields(data@) {
                None => r == Err::<(), ImportError>(ImportError::Malformed) && *final(self) == *old(self),
                Some(rows) => {
                    let n = rows.len();
                    let m = if n > 0 { rows[0].len() } else { 0 };
                    if n * m > usize::MAX {
                        r == Err::<(), ImportError>(ImportError::TooLarge) && *final(self) == *old(self)
                    } else {
                        &&& r is Ok
                        &&& final(self).wf()
                        &&& final(self).num_rows() == n
                        &&& final(self).num_cols() == m
                        &&& forall|c: Cell| final(self).contains(c) ==> imported_formula(
                            #[trigger] final(self).cell_at(c).function, rows[c.row as int][c.col as int], c, n as int, m as int)
                    }
                },
            },
    {
        self.load_fields(data, false)
    }

    /// Like `load_csv_from_str`, but stops with `RejectedField` at the first
    /// field that is not accepted; on success every cell holds the formula
    /// its field denotes.
    pub fn load_csv_checked(&mut self, data: &str) -> (r: Result<(), ImportError>)
        requires
            old(self).wf(),
        ensures
            match csv_fields(data@) {
                None => r == Err::<(), ImportError>(ImportError::Malformed) && *final(self) == *old(self),
                Some(rows) => {
                    let n = rows.len();
                    let m = if n > 0 { rows[0].len() } else { 0 };
                    if n * m > usize::MAX {
                        r == Err::<(), ImportError>(ImportError::TooLarge) && *final(self) == *old(self)
                    } else {
                        &&& r is Ok || r == Err::<(), ImportError>(ImportError::RejectedField)
                        &&& final(self).wf()
                        &&& final(self).num_rows() == n
                        &&& final(self).num_cols() == m
                        &&& r is Ok ==> forall|c: Cell| final(self).contains(c) ==> accepted_formula(
                            #[trigger] final(self).cell_at(c).function, rows[c.row as int][c.col as int], n as int, m as int)
                    }
                },
            },
    {
        self.load_fields(data, true)
    }

    fn load_fields(&mut self, data: &str, strict: bool) -> (r: Result<(), ImportError>)
        requires
            old(self).wf(),
        ensures
            match csv_fields(data@) {
                None => r == Err::<(), ImportError>(ImportError::Malformed) && *final(self) == *old(self),
                Some(rows) => {
                    let n = rows.len();
                    let m = if n > 0 { rows[0].len() } else { 0 };
                    if n * m > usize::MAX {
                        r == Err::<(), ImportError>(ImportError::TooLarge) && *final(self) == *old(self)
                    } else {
                        &&& r is Ok || (strict && r == Err::<(), ImportError>(ImportError::RejectedField))
                        &&& final(self).wf()
                        &&& final(self).num_rows() == n
                        &&& final(self).num_cols() == m
                        &&& r is Ok ==> forall|c: Cell| final(self).contains(c) ==> imported_formula(
                            #[trigger] final(self).cell_at(c).function, rows[c.row as int][c.col as int], c, n as int, m as int)
                        &&& r is Ok && strict ==> forall|c: Cell| final(self).contains(c) ==> accepted_formula(
                            #[trigger] final(self).cell_at(c).function, rows[c.row as int][c.col as int], n as int, m as int)
                    }
                },
            },
    {
        let rows = match read_csv_fields(data) {
            Ok(rows) => rows,
            Err(_) => return Err(ImportError::Malformed),
        };
        let ghost fv = fields_view(rows@);
        let n = rows.len();
        let m = if n > 0 { rows[0].len() } else { 0 };
        assert(fv.len() == n);
        assert(n > 0 ==> fv[0].len() == m);
        if n > 0 && m > usize::MAX / n {
            assert(n * m > usize::MAX) by (nonlinear_arith)
                requires
                    n > 0,
                    m > usize::MAX / n,
            ;
            return Err(ImportError::TooLarge);
        }
        assert(n * m <= usize::MAX) by (nonlinear_arith)
            requires
                n == 0 || m <= usize::MAX / n,
        ;
        *self = Backend::new(n, m);
        let ghost fresh = Function { type_: FunctionType::Constant, data: FunctionData::Value(0) };
        let mut i: usize = 0;
        while i < n
            invariant
                self.wf(),
                self.num_rows() == n,
                self.num_cols() == m,
                n == rows@.len(),
                fv == fields_view(rows@),
                csv_fields(data@) == Some(fv),
                fv.len() == n,
                n > 0 ==> fv[0].len() == m,
                n * m <= usize::MAX,
                fresh == (Function { type_: FunctionType::Constant, data: FunctionData::Value(0) }),
                forall|k: int| 0 <= k < rows@.len() ==> (#[trigger] rows@[k])@.len() == m,
                i <= n,
                forall|c: Cell| self.contains(c) && c.row < i ==> imported_formula(
                    #[trigger] self.cell_at(c).function, fv[c.row as int][c.col as int], c, n as int, m as int),
                strict ==> forall|c: Cell| self.contains(c) && c.row < i ==> accepted_formula(
                    #[trigger] self.cell_at(c).function, fv[c.row as int][c.col as int], n as int, m as int),
                forall|c: Cell| self.contains(c) && c.row >= i ==> #[trigger] self.cell_at(c).function == fresh,
            decreases n - i,
        {
            let row = &rows[i];
            let mut j: usize = 0;
            while j < row.len()
                invariant
                    self.wf(),
                    self.num_rows() == n,
                    self.num_cols() == m,
                    fv == fields_view(rows@),
                    csv_fields(data@) == Some(fv),
                    fv.len() == n,
                    n > 0 ==> fv[0].len() == m,
                    n * m <= usize::MAX,
                    fresh == (Function { type_: FunctionType::Constant, data: FunctionData::Value(0) }),
                    i < n,
                    n == rows@.len(),
                    row == rows@[i as int],
                    row@.len() == m,
                    j <= row@.len(),
                    forall|c: Cell| self.contains(c) && (c.row < i || (c.row == i && c.col < j)) ==> imported_formula(
                        #[trigger] self.cell_at(c).function, fv[c.row as int][c.col as int], c, n as int, m as int),
                    strict ==> forall|c: Cell| self.contains(c) && (c.row < i || (c.row == i && c.col < j)) ==> accepted_formula(
                        #[trigger] self.cell_at(c).function, fv[c.row as int][c.col as int], n as int, m as int),
                    forall|c: Cell| self.contains(c) && !(c.row < i || (c.row == i && c.col < j))
                        ==> #[trigger] self.cell_at(c).function == fresh,
                decreases row@.len() - j,
            {
                let text = trim_text(row[j].as_str());
                let cell = Cell { row: i, col: j };
                assert(fv[i as int][j as int] == row@[j as int]@);
                assert(self.contains(cell));
                let ghost before = self.cell_at(cell).function;
                assert(before == fresh);
                let ghost gb = self.cells();
                proof {
                    assert forall|x: Cell| in_grid(x, n as int, m as int) && !before_in_rows(x, cell)
                        implies #[trigger] at(gb, x).function == fresh by {
                        assert(self.cell_at(x).function == fresh);
                    }
                }
                let res = self.set_cell_value(cell, text.as_str());
                proof {
                    assert(text@ == trimmed(fv[i as int][j as int]));
                    let after = self.cell_at(cell).function;
                    let t = fv[i as int][j as int];
                    assert(formula_text(trimmed(t)) == formula_text(text@));
                    match parse_spec(formula_text(text@), n as int, m as int) {
                        Some(g) => {
                            assert(parse_spec(formula_text(trimmed(t)), n as int, m as int) == Some(g));
                            if res is Err {
                                assert(after == before);
                                if g.data is Value {
                                    assert(res is Ok);
                                }
                                assert(after == fresh && !(g.data is Value));
                                lemma_rejection_cause(gb, n as int, m as int, cell, g);
                            } else {
                                assert(after == g);
                            }
                            assert(imported_formula(after, t, cell, n as int, m as int));
                        },
                        None => {
                            assert(after == before);
                                    assert(imported_formula(after, t, cell, n as int, m as int));
                        },
                    }
                }
                if strict && res.is_err() {
                    return Err(ImportError::RejectedField);
                }
                proof {
                    if strict {
                        let t = fv[i as int][j as int];
                        assert(formula_text(trimmed(t)) == formula_text(text@));
                        assert(accepted_formula(self.cell_at(cell).function, t, n as int, m as int));
                    }
                }
                j += 1;
            }
            i += 1;
        }
        Ok(())
    }

    /// The computed value of every cell, row by row.
    pub fn export_values(&self) -> (r: Vec<Vec<i32>>)
        requires
            self.wf(),
        ensures
            r@.len() == self.num_rows(),
            forall|a: int| 0 <= a < self.num_rows() ==> (#[trigger] r@[a])@.len() == self.num_cols(),
            forall|c: Cell| self.contains(c) ==> r@[c.row as int]@[c.col as int] == #[trigger] self.cell_at(c).value,
    {
        let (rows, cols) = self.get_rows_col();
        let mut out: Vec<Vec<i32>> = Vec::new();
        let mut i: usize = 0;
        while i < rows
            invariant
                self.wf(),
                rows == self.num_rows(),
                cols == self.num_cols(),
                i <= rows,
                out@.len() == i,
                forall|a: int| 0 <= a < i ==> (#[trigger] out@[a])@.len() == cols,
                forall|c: Cell| c.row < i && c.col < cols ==> out@[c.row as int]@[c.col as int] == #[trigger] self.cell_at(c).value,
            decreases rows - i,
        {
            let mut line: Vec<i32> = Vec::new();
            let mut j: usize = 0;
            while j < cols
                invariant
                    self.wf(),
                    rows == self.num_rows(),
                    cols == self.num_cols(),
                    i < rows,
                    j <= cols,
                    line@.len() == j,
                    forall|b: int| 0 <= b < j ==> line@[b] == self.cell_at(Cell { row: i, col: b as usize }).value,
                decreases cols - j,
            {
                line.push(self.get_cell_value(i, j).value);
                j += 1;
            }
            let ghost before = out@;
            out.push(line);
            proof {
                assert forall|c: Cell| c.row < i + 1 && c.col < cols implies out@[c.row as int]@[c.col as int] == #[trigger] self.cell_at(c).value by {
                    if c.row < i {
                        assert(out@[c.row as int] == before[c.row as int]);
                    } else {
                        assert(c == (Cell { row: i, col: c.col }));
                    }
                }
            }
            i += 1;
        }
        out
    }
}

} // verus!
