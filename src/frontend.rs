//! The command interface around the engine: cell assignments, scrolling of
//! the visible window and output control.
use vstd::prelude::*;
use crate::backend::Backend;
use crate::model::{reaches, references};
use crate::parser::{cell_ref_in, cell_ref_spec, chars_of, find_char, find_in, formula_text, parse_spec};
use crate::structs::{is_default_cell, Cell};
use crate::text::{
    char_is_alphanumeric, char_is_whitespace, is_alnum, is_space, same_text, string_from,
};

verus! {

/// Rows and columns of the visible window.
pub const MAX_WIDTH: usize = 10;

/// The character code of `A`.
const CODE_A: u8 = 65;

/// Column header letters for the one-based column number `n`: `A` for 1,
/// `Z` for 26, `AA` for 27.
pub open spec fn column_letters(n: nat) -> Seq<char>
    decreases n,
{
    if n == 0 {
        seq![]
    } else {
        column_letters(((n - 1) as nat / 26) as nat).push(((('A' as int) + (n - 1) % 26) as u8) as char)
    }
}

/// The window start after moving ten forward from `pos` in a dimension of
/// size `size`: ten more while a whole window still fits after it, else the
/// last full window (or `0` when the dimension is shorter than a window).
pub open spec fn scroll_forward_spec(pos: int, size: int) -> int {
    if pos + 2 * MAX_WIDTH <= size {
        pos + MAX_WIDTH
    } else if size >= MAX_WIDTH {
        size - MAX_WIDTH
    } else {
        0
    }
}

/// Whether the engine accepts formula text `text` for cell `c` of the cell
/// rows `g`: it parses and reads neither `c` nor a cell that `c` reaches.
pub open spec fn edit_accepted(g: Seq<Seq<crate::structs::CellData>>, c: Cell, text: Seq<char>, rows: int, cols: int) -> bool {
    match parse_spec(formula_text(text), rows, cols) {
        None => false,
        Some(f) => !(references(f, c) || exists|p: Cell| #[trigger] references(f, p) && reaches(g, c, p)),
    }
}

/// Index just past the run of whitespace starting at `i`.
pub open spec fn skip_spaces(s: Seq<char>, i: int) -> int
    decreases s.len() - i,
{
    if i < s.len() && is_space(s[i]) {
        skip_spaces(s, i + 1)
    } else {
        i
    }
}

/// `s[i..]` with each run of whitespace removed, or replaced by one space
/// where the run has a single character and letters or digits on both sides.
pub open spec fn squeeze_from(s: Seq<char>, i: int) -> Seq<char>
    decreases s.len() - i,
{
    if i >= s.len() || i < 0 {
        seq![]
    } else if is_space(s[i]) {
        let keep = i > 0 && i + 1 < s.len() && is_alnum(s[i - 1]) && is_alnum(s[i + 1]);
        let j = skip_spaces(s, i);
        if i < j <= s.len() {
            (if keep { seq![' '] } else { seq![] }) + squeeze_from(s, j)
        } else {
            seq![]
        }
    } else {
        seq![s[i]] + squeeze_from(s, i + 1)
    }
}

proof fn lemma_skip_spaces(s: Seq<char>, i: int)
    requires
        0 <= i < s.len(),
        is_space(s[i]),
    ensures
        i < skip_spaces(s, i) <= s.len(),
    decreases s.len() - i,
{
    if i + 1 < s.len() && is_space(s[i + 1]) {
        lemma_skip_spaces(s, i + 1);
    } else {
        assert(skip_spaces(s, i + 1) == i + 1);
    }
}

/// The command interface: an engine, the visible window's top-left cell and
/// whether the board is printed.
pub struct Frontend {
    pub backend: Backend,
    pub rows: usize,
    pub cols: usize,
    pub cell_width: usize,
    pub do_print: bool,
    pub top_left: Cell,
}

impl Frontend {
    /// The engine is well formed and the frontend's dimensions are its own.
    pub open spec fn wf(&self) -> bool {
        &&& self.backend.wf()
        &&& self.rows == self.backend.num_rows()
        &&& self.cols == self.backend.num_cols()
    }

    /// A frontend over a fresh `rows` x `cols` engine, showing the top-left
    /// corner, with printing on.
    pub fn new(rows: usize, cols: usize) -> (r: Self)
        requires
            rows * cols <= usize::MAX,
        ensures
            r.wf(),
            r.rows == rows,
            r.cols == cols,
            r.cell_width == 12,
            r.do_print,
            r.top_left == (Cell { row: 0, col: 0 }),
            forall|c: Cell| r.backend.contains(c) ==> is_default_cell(#[trigger] r.backend.cell_at(c)),
    {
        Frontend {
            backend: Backend::new(rows, cols),
            rows,
            cols,
            cell_width: 12,
            do_print: true,
            top_left: Cell { row: 0, col: 0 },
        }
    }

    /// The engine, for changes the frontend does not make itself.
    pub fn get_backend_mut(&mut self) -> (r: &mut Backend)
        ensures
            *r == old(self).backend,
            final(self).backend == *final(r),
            final(self).rows == old(self).rows,
            final(self).cols == old(self).cols,
            final(self).cell_width == old(self).cell_width,
            final(self).do_print == old(self).do_print,
            final(self).top_left == old(self).top_left,
    {
        &mut self.backend
    }

    /// Column header for the zero-based column `number`: `A`, ..., `Z`, `AA`, ...
    pub fn number_to_column_header(number: usize) -> (r: String)
        requires
            number < usize::MAX,
        ensures
            r@ == column_letters(number as nat + 1),
    {
        let v = Self::letters(number + 1);
        string_from(&v)
    }

    fn letters(n: usize) -> (r: Vec<char>)
        ensures
            r@ == column_letters(n as nat),
        decreases n,
    {
        if n == 0 {
            Vec::new()
        } else {
            let mut v = Self::letters((n - 1) / 26);
            let k = ((n - 1) % 26) as u8;
            v.push((CODE_A + k) as char);
            v
        }
    }

    /// Removes whitespace: each run is dropped, except that a single
    /// whitespace character between two letters or digits becomes one space.
    pub fn remove_spaces(s: &mut String)
        ensures
            final(s)@ == squeeze_from(old(s)@, 0),
    {
        let chars = chars_of(s.as_str());
        let mut cleaned: Vec<char> = Vec::new();
        let n = chars.len();
        let mut i: usize = 0;
        while i < n
            invariant
                n == chars@.len(),
                i <= n,
                cleaned@ + squeeze_from(chars@, i as int) == squeeze_from(chars@, 0),
            decreases n - i,
        {
            if char_is_whitespace(chars[i]) {
                let keep = i > 0 && i + 1 < n && char_is_alphanumeric(chars[i - 1])
                    && char_is_alphanumeric(chars[i + 1]);
                if keep {
                    cleaned.push(' ');
                }
                let ghost start = i as int;
                proof {
                    lemma_skip_spaces(chars@, start);
                }
                while i < n && char_is_whitespace(chars[i])
                    invariant
                        n == chars@.len(),
                        start <= i <= n,
                        skip_spaces(chars@, start) == skip_spaces(chars@, i as int),
                    decreases n - i,
                {
                    i += 1;
                }
                proof {
                    assert(cleaned@ + squeeze_from(chars@, i as int) =~= squeeze_from(chars@, 0));
                }
            } else {
                let c = chars[i];
                cleaned.push(c);
                proof {
                    assert(cleaned@ + squeeze_from(chars@, i + 1) =~= squeeze_from(chars@, 0));
                }
                i += 1;
            }
        }
        assert(cleaned@ =~= squeeze_from(chars@, 0));
        *s = string_from(&cleaned);
    }

    /// Runs one command line. `<cell>=<formula>` (the line starting with an
    /// uppercase letter) sets a cell and tells whether the edit was accepted;
    /// anything else is a frontend command.
    pub fn run_command(&mut self, input: &str) -> (r: bool)
        requires
            old(self).wf(),
        ensures
            final(self).wf(),
            input@.len() > 0 && 'A' <= input@[0] <= 'Z' ==> ({
                let s = input@;
                let eq = find_in(s, '=', 0, s.len() as int);
                if eq < 0 {
                    !r && *final(self) == *old(self)
                } else {
                    match cell_ref_spec(s, 0, eq, old(self).rows as int, old(self).cols as int) {
                        None => !r && *final(self) == *old(self),
                        Some(c) => r == edit_accepted(old(self).backend.cells(), c, s.subrange(eq + 1, s.len() as int),
                            old(self).rows as int, old(self).cols as int),
                    }
                }
            }),
    {
        let s = chars_of(input);
        if s.len() > 0 && 'A' <= s[0] && s[0] <= 'Z' {
            let eq = match find_char(&s, '=', 0, s.len()) {
                Some(e) => e,
                None => return false,
            };
            let (rows, cols) = self.backend.get_rows_col();
            let cell = match cell_ref_in(&s, 0, eq, rows, cols) {
                Some(c) => c,
                None => return false,
            };
            let mut expr: Vec<char> = Vec::new();
            let mut k: usize = eq + 1;
            while k < s.len()
                invariant
                    eq < k <= s.len(),
                    expr@ == s@.subrange(eq + 1, k as int),
                decreases s.len() - k,
            {
                expr.push(s[k]);
                assert(s@.subrange(eq + 1, k + 1) =~= s@.subrange(eq + 1, k as int).push(s@[k as int]));
                k += 1;
            }
            let text = string_from(&expr);
            self.backend.push_undo_state();
            self.backend.set_cell_value(cell, text.as_str()).is_ok()
        } else {
            self.run_frontend_command(input)
        }
    }

    /// Frontend commands: `disable_output` / `enable_output`, `w` `s` `a`
    /// `d` to move the window by ten rows or columns, `scroll_to <cell>`,
    /// `undo` / `redo`, and `copy(..)`, `cut(..)`, `paste(..)`.
    /// Answers whether the command was understood and carried out.
    pub fn run_frontend_command(&mut self, cmd: &str) -> (r: bool)
        requires
            old(self).wf(),
        ensures
            final(self).wf(),
            cmd@ == "disable_output"@ ==> r && !final(self).do_print && final(self).top_left == old(self).top_left,
            cmd@ == "enable_output"@ ==> r && final(self).do_print && final(self).top_left == old(self).top_left,
            cmd@ == "w"@ ==> r && final(self).top_left == (Cell {
                row: if old(self).top_left.row >= MAX_WIDTH { (old(self).top_left.row - MAX_WIDTH) as usize } else { 0 },
                col: old(self).top_left.col,
            }),
            cmd@ == "a"@ ==> r && final(self).top_left == (Cell {
                row: old(self).top_left.row,
                col: if old(self).top_left.col >= MAX_WIDTH { (old(self).top_left.col - MAX_WIDTH) as usize } else { 0 },
            }),
            cmd@ == "s"@ ==> r && final(self).top_left.col == old(self).top_left.col
                && final(self).top_left.row == scroll_forward_spec(old(self).top_left.row as int, old(self).rows as int),
            cmd@ == "d"@ ==> r && final(self).top_left.row == old(self).top_left.row
                && final(self).top_left.col == scroll_forward_spec(old(self).top_left.col as int, old(self).cols as int),
    {
        proof {
            reveal_strlit("disable_output");
            reveal_strlit("enable_output");
            reveal_strlit("w");
            reveal_strlit("s");
            reveal_strlit("a");
            reveal_strlit("d");
            reveal_strlit("undo");
            reveal_strlit("redo");
            assert("w"@[0] == 'w' && "s"@[0] == 's' && "a"@[0] == 'a' && "d"@[0] == 'd');
            assert("s"@ != "w"@ && "a"@ != "w"@ && "a"@ != "s"@ && "d"@ != "w"@ && "d"@ != "s"@ && "d"@ != "a"@);
        }
        let s = chars_of(cmd);
        if same_text(&s, &chars_of("disable_output")) {
            self.do_print = false;
        } else if same_text(&s, &chars_of("enable_output")) {
            self.do_print = true;
        } else if same_text(&s, &chars_of("w")) {
            self.top_left.row = if self.top_left.row >= MAX_WIDTH { self.top_left.row - MAX_WIDTH } else { 0 };
        } else if same_text(&s, &chars_of("s")) {
            self.top_left.row = Self::scroll_forward(self.top_left.row, self.rows);
        } else if same_text(&s, &chars_of("a")) {
            self.top_left.col = if self.top_left.col >= MAX_WIDTH { self.top_left.col - MAX_WIDTH } else { 0 };
        } else if same_text(&s, &chars_of("d")) {
            self.top_left.col = Self::scroll_forward(self.top_left.col, self.cols);
        } else if same_text(&s, &chars_of("undo")) {
            self.backend.undo_callback();
            self.rows = self.backend.get_rows();
            self.cols = self.backend.get_cols();
        } else if same_text(&s, &chars_of("redo")) {
            self.backend.redo_callback();
            self.rows = self.backend.get_rows();
            self.cols = self.backend.get_cols();
        } else if crate::parser::starts_with_chars(&s, &chars_of("copy(")) {
            proof {
                reveal_strlit("copy(");
            }
            return self.backend.copy(cmd).is_ok();
        } else if crate::parser::starts_with_chars(&s, &chars_of("cut(")) {
            proof {
                reveal_strlit("cut(");
            }
            self.backend.push_undo_state();
            return self.backend.cut(cmd).is_ok();
        } else if crate::parser::starts_with_chars(&s, &chars_of("paste(")) {
            proof {
                reveal_strlit("paste(");
            }
            self.backend.push_undo_state();
            return self.backend.paste(cmd).is_ok();
        } else {
            let p = chars_of("scroll_to ");
            if !crate::parser::starts_with_chars(&s, &p) {
                return false;
            }
            let mut lo = p.len();
            let mut hi = s.len();
            while lo < hi && char_is_whitespace(s[lo])
                invariant
                    p.len() <= lo <= hi <= s.len(),
                decreases hi - lo,
            {
                lo += 1;
            }
            while hi > lo && char_is_whitespace(s[hi - 1])
                invariant
                    p.len() <= lo <= hi <= s.len(),
                decreases hi - lo,
            {
                hi -= 1;
            }
            match cell_ref_in(&s, lo, hi, self.rows, self.cols) {
                Some(c) => self.top_left = c,
                None => return false,
            }
        }
        true
    }

    fn scroll_forward(pos: usize, size: usize) -> (r: usize)
        ensures
            r == scroll_forward_spec(pos as int, size as int),
    {
        if pos <= size && size - pos >= 2 * MAX_WIDTH {
            pos + MAX_WIDTH
        } else if size >= MAX_WIDTH {
            size - MAX_WIDTH
        } else {
            0
        }
    }
}

} // verus!
