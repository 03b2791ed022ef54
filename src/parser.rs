//! Formula text to formula model.
//!
//! All spec functions work on a character sequence `s` and a half-open index
//! range `[lo, hi)` of it, so that the pieces of one formula are described
//! without building substrings.
use vstd::prelude::*;
use crate::backend::Backend;
use crate::structs::{
    cell_operand, int_operand, is_range_type, BinaryOp, Cell, Function, FunctionData, FunctionType,
    Operand, OperandData, OperandType, RangeFunction,
};

verus! {

broadcast use vstd::string::axiom_spec_iter;

pub open spec fn is_upper(c: char) -> bool {
    'A' <= c && c <= 'Z'
}

pub open spec fn is_digit(c: char) -> bool {
    '0' <= c && c <= '9'
}

pub open spec fn is_op_char(c: char) -> bool {
    c == '+' || c == '-' || c == '*' || c == '/'
}

/// Every character of `s[lo..hi)` is a decimal digit.
pub open spec fn all_digits(s: Seq<char>, lo: int, hi: int) -> bool {
    forall|j: int| lo <= j < hi ==> is_digit(#[trigger] s[j])
}

/// The decimal number written by the digits `s[lo..i)`.
pub open spec fn digits_value(s: Seq<char>, lo: int, i: int) -> int
    decreases i - lo,
{
    if i <= lo {
        0
    } else {
        digits_value(s, lo, i - 1) * 10 + (s[i - 1] as int - '0' as int)
    }
}

/// The base-26 column number (`A` = 1, `Z` = 26, `AA` = 27) written by `s[lo..i)`.
pub open spec fn letters_value(s: Seq<char>, lo: int, i: int) -> int
    decreases i - lo,
{
    if i <= lo {
        0
    } else {
        letters_value(s, lo, i - 1) * 26 + (s[i - 1] as int - 'A' as int + 1)
    }
}

/// The first index in `[i, hi)` that does not hold an uppercase letter, or `hi`.
pub open spec fn skip_upper(s: Seq<char>, i: int, hi: int) -> int
    decreases hi - i,
{
    if i < hi && is_upper(s[i]) {
        skip_upper(s, i + 1, hi)
    } else {
        i
    }
}

/// The first index in `[i, hi)` holding `c`, or `-1`.
pub open spec fn find_in(s: Seq<char>, c: char, i: int, hi: int) -> int
    decreases hi - i,
{
    if i >= hi {
        -1
    } else if s[i] == c {
        i
    } else {
        find_in(s, c, i + 1, hi)
    }
}

/// The first index in `[i, hi)` holding an operator character, or `-1`.
pub open spec fn find_op(s: Seq<char>, i: int, hi: int) -> int
    decreases hi - i,
{
    if i >= hi {
        -1
    } else if is_op_char(s[i]) {
        i
    } else {
        find_op(s, i + 1, hi)
    }
}

/// `s` begins with `p`.
pub open spec fn has_prefix(s: Seq<char>, p: Seq<char>) -> bool {
    p.len() <= s.len() && s.subrange(0, p.len() as int) == p
}

/// The cell that `s[lo..hi)` names in a grid of `rows` x `cols`: uppercase
/// letters for the column, then digits for the one-based row, nothing else.
pub open spec fn cell_ref_spec(s: Seq<char>, lo: int, hi: int, rows: int, cols: int) -> Option<Cell> {
    let k = skip_upper(s, lo, hi);
    if k == lo || k >= hi || !all_digits(s, k, hi) {
        None
    } else {
        let col = letters_value(s, lo, k);
        let row = digits_value(s, k, hi);
        if 1 <= row <= rows && 1 <= col <= cols {
            Some(Cell { row: (row - 1) as usize, col: (col - 1) as usize })
        } else {
            None
        }
    }
}

/// An optionally negative decimal integer literal that fits in `i32`.
pub open spec fn int_literal_spec(s: Seq<char>, lo: int, hi: int) -> Option<i32> {
    if lo < hi && s[lo] == '-' {
        if lo + 1 < hi && all_digits(s, lo + 1, hi) && digits_value(s, lo + 1, hi) <= 0x8000_0000 {
            Some((-digits_value(s, lo + 1, hi)) as i32)
        } else {
            None
        }
    } else if lo < hi && all_digits(s, lo, hi) && digits_value(s, lo, hi) <= 0x7fff_ffff {
        Some(digits_value(s, lo, hi) as i32)
    } else {
        None
    }
}

/// An operand of a binary operation: a non-negative literal or a cell reference.
pub open spec fn operand_spec(s: Seq<char>, lo: int, hi: int, rows: int, cols: int) -> Option<Operand> {
    if lo < hi && is_digit(s[lo]) {
        if all_digits(s, lo, hi) && digits_value(s, lo, hi) <= 0x7fff_ffff {
            Some(int_operand(digits_value(s, lo, hi) as i32))
        } else {
            None
        }
    } else {
        match cell_ref_spec(s, lo, hi, rows, cols) {
            Some(c) => Some(cell_operand(c)),
            None => None,
        }
    }
}

/// A range aggregate whose arguments start at index `start` of `s`:
/// `<cellref>:<cellref>)`, the corners ordered componentwise.
pub open spec fn range_spec(s: Seq<char>, start: int, t: FunctionType, rows: int, cols: int) -> Option<Function> {
    let e = find_in(s, ')', start, s.len() as int);
    let sep = find_in(s, ':', start, e);
    if e < 0 || sep < 0 {
        None
    } else {
        match (cell_ref_spec(s, start, sep, rows, cols), cell_ref_spec(s, sep + 1, e, rows, cols)) {
            (Some(tl), Some(br)) => if tl.row <= br.row && tl.col <= br.col {
                Some(Function { type_: t, data: FunctionData::RangeFunction(RangeFunction { top_left: tl, bottom_right: br }) })
            } else {
                None
            },
            _ => None,
        }
    }
}

/// A `SLEEP` whose argument starts at index `start` of `s`: an integer literal
/// or a cell reference, then `)`.
pub open spec fn sleep_spec(s: Seq<char>, start: int, rows: int, cols: int) -> Option<Function> {
    let e = find_in(s, ')', start, s.len() as int);
    if e < 0 {
        None
    } else if start < e && (is_digit(s[start]) || s[start] == '-') {
        match int_literal_spec(s, start, e) {
            Some(v) => Some(Function { type_: FunctionType::Sleep, data: FunctionData::SleepValue(int_operand(v)) }),
            None => None,
        }
    } else {
        match cell_ref_spec(s, start, e, rows, cols) {
            Some(c) => Some(Function { type_: FunctionType::Sleep, data: FunctionData::SleepValue(cell_operand(c)) }),
            None => None,
        }
    }
}

pub open spec fn op_type(c: char) -> FunctionType {
    if c == '+' {
        FunctionType::Plus
    } else if c == '-' {
        FunctionType::Minus
    } else if c == '*' {
        FunctionType::Multiply
    } else {
        FunctionType::Divide
    }
}

/// A formula without a function name: `<operand><op><operand>` split at the
/// first operator after the first character, else a constant, else a single
/// cell reference read as `cell + 0`.
pub open spec fn arith_spec(s: Seq<char>, rows: int, cols: int) -> Option<Function> {
    let n = s.len() as int;
    let i = find_op(s, 1, n);
    if i >= 0 {
        match (operand_spec(s, 0, i, rows, cols), operand_spec(s, i + 1, n, rows, cols)) {
            (Some(a), Some(b)) => Some(Function { type_: op_type(s[i]), data: FunctionData::BinaryOp(BinaryOp { first: a, second: b }) }),
            _ => None,
        }
    } else if 0 < n && (is_digit(s[0]) || s[0] == '-') {
        match int_literal_spec(s, 0, n) {
            Some(v) => Some(Function { type_: FunctionType::Constant, data: FunctionData::Value(v) }),
            None => None,
        }
    } else {
        match cell_ref_spec(s, 0, n, rows, cols) {
            Some(c) => Some(Function { type_: FunctionType::Plus, data: FunctionData::BinaryOp(BinaryOp { first: cell_operand(c), second: int_operand(0) }) }),
            None => None,
        }
    }
}

/// The formula that the text `s` denotes in a grid of `rows` x `cols`, if any.
pub open spec fn parse_spec(s: Seq<char>, rows: int, cols: int) -> Option<Function> {
    if s.len() == 0 {
        None
    } else if has_prefix(s, "MIN("@) {
        range_spec(s, "MIN("@.len() as int, FunctionType::Min, rows, cols)
    } else if has_prefix(s, "MAX("@) {
        range_spec(s, "MAX("@.len() as int, FunctionType::Max, rows, cols)
    } else if has_prefix(s, "AVG("@) {
        range_spec(s, "AVG("@.len() as int, FunctionType::Avg, rows, cols)
    } else if has_prefix(s, "SUM("@) {
        range_spec(s, "SUM("@.len() as int, FunctionType::Sum, rows, cols)
    } else if has_prefix(s, "STDEV("@) {
        range_spec(s, "STDEV("@.len() as int, FunctionType::Stdev, rows, cols)
    } else if has_prefix(s, "SLEEP("@) {
        sleep_spec(s, "SLEEP("@.len() as int, rows, cols)
    } else {
        arith_spec(s, rows, cols)
    }
}

/// Collects the characters of a string slice into a vector.
pub fn chars_of(s: &str) -> (r: Vec<char>)
    ensures
        r@ == s@,
{
    let mut v: Vec<char> = Vec::new();
    for c in it: s.chars()
        invariant
            v@ == it.seq().take(it.index() as int),
            it.seq() == s@,
    {
        v.push(c);
    }
    v
}

/// Whether the characters `s` begin with the characters `p`.
pub fn starts_with_chars(s: &Vec<char>, p: &Vec<char>) -> (r: bool)
    ensures
        r == has_prefix(s@, p@),
{
    if p.len() > s.len() {
        return false;
    }
    let mut i: usize = 0;
    while i < p.len()
        invariant
            p.len() <= s.len(),
            i <= p.len(),
            forall|j: int| 0 <= j < i ==> s@[j] == p@[j],
        decreases p.len() - i,
    {
        if s[i] != p[i] {
            assert(s@.subrange(0, p.len() as int)[i as int] != p@[i as int]);
            return false;
        }
        i += 1;
    }
    assert(s@.subrange(0, p.len() as int) =~= p@);
    true
}

/// The first index in `[lo, hi)` holding `c`.
pub fn find_char(s: &Vec<char>, c: char, lo: usize, hi: usize) -> (r: Option<usize>)
    requires
        lo <= hi <= s.len(),
    ensures
        match r {
            Some(k) => find_in(s@, c, lo as int, hi as int) == k as int && lo <= k < hi,
            None => find_in(s@, c, lo as int, hi as int) == -1,
        },
{
    let mut i = lo;
    while i < hi
        invariant
            lo <= i <= hi <= s.len(),
            find_in(s@, c, lo as int, hi as int) == find_in(s@, c, i as int, hi as int),
        decreases hi - i,
    {
        if s[i] == c {
            return Some(i);
        }
        i += 1;
    }
    None
}

fn find_operator(s: &Vec<char>, lo: usize, hi: usize) -> (r: Option<usize>)
    requires
        lo <= hi <= s.len(),
    ensures
        match r {
            Some(k) => find_op(s@, lo as int, hi as int) == k as int && lo <= k < hi,
            None => find_op(s@, lo as int, hi as int) == -1,
        },
{
    let mut i = lo;
    while i < hi
        invariant
            lo <= i <= hi <= s.len(),
            find_op(s@, lo as int, hi as int) == find_op(s@, i as int, hi as int),
        decreases hi - i,
    {
        let c = s[i];
        if c == '+' || c == '-' || c == '*' || c == '/' {
            return Some(i);
        }
        i += 1;
    }
    None
}

proof fn lemma_digits_nonneg(s: Seq<char>, lo: int, i: int)
    requires
        all_digits(s, lo, i),
    ensures
        digits_value(s, lo, i) >= 0,
    decreases i - lo,
{
    if i > lo {
        lemma_digits_nonneg(s, lo, i - 1);
    }
}

proof fn lemma_letters_pos(s: Seq<char>, lo: int, i: int)
    requires
        lo < i,
        forall|j: int| lo <= j < i ==> is_upper(#[trigger] s[j]),
    ensures
        letters_value(s, lo, i) >= 1,
    decreases i - lo,
{
    assert(is_upper(s[i - 1]));
    if i - 1 > lo {
        lemma_letters_pos(s, lo, i - 1);
    } else {
        assert(letters_value(s, lo, i - 1) == 0);
    }
}

/// Reads the digits `s[lo..hi)`; `ok` tells whether they all are digits, and
/// then `v` is their value, capped at `cap`.
pub fn read_digits(s: &Vec<char>, lo: usize, hi: usize, cap: u128) -> (r: (bool, u128))
    requires
        lo <= hi <= s.len(),
        cap <= 0x1_0000_0000_0000_0000,
    ensures
        r.0 == all_digits(s@, lo as int, hi as int),
        r.0 ==> r.1 == if digits_value(s@, lo as int, hi as int) < cap as int {
            digits_value(s@, lo as int, hi as int)
        } else {
            cap as int
        },
{
    let mut v: u128 = 0;
    let mut i = lo;
    while i < hi
        invariant
            lo <= i <= hi <= s.len(),
            all_digits(s@, lo as int, i as int),
            cap <= 0x1_0000_0000_0000_0000,
            v as int == if digits_value(s@, lo as int, i as int) < cap as int {
                digits_value(s@, lo as int, i as int)
            } else {
                cap as int
            },
        decreases hi - i,
    {
        let c = s[i];
        if !('0' <= c && c <= '9') {
            return (false, 0);
        }
        proof {
            lemma_digits_nonneg(s@, lo as int, i as int);
        }
        let d = (c as u32 - '0' as u32) as u128;
        if v < cap {
            let t: u128 = v * 10 + d;
            if t < cap {
                v = t;
            } else {
                v = cap;
            }
        }
        i += 1;
    }
    (true, v)
}

/// Parses a cell reference over the characters `s[lo..hi)`.
pub fn cell_ref_in(s: &Vec<char>, lo: usize, hi: usize, rows: usize, cols: usize) -> (r: Option<Cell>)
    requires
        lo <= hi <= s.len(),
    ensures
        r == cell_ref_spec(s@, lo as int, hi as int, rows as int, cols as int),
{
    let mut col: u128 = 0;
    let mut i = lo;
    while i < hi && 'A' <= s[i] && s[i] <= 'Z'
        invariant
            lo <= i <= hi <= s.len(),
            skip_upper(s@, lo as int, hi as int) == skip_upper(s@, i as int, hi as int),
            forall|j: int| lo <= j < i ==> is_upper(#[trigger] s@[j]),
            col as int == if letters_value(s@, lo as int, i as int) <= cols as int {
                letters_value(s@, lo as int, i as int)
            } else {
                cols as int + 1
            },
        decreases hi - i,
    {
        let d = (s[i] as u32 - 'A' as u32 + 1) as u128;
        if col <= cols as u128 {
            let t = col * 26 + d;
            if t <= cols as u128 {
                col = t;
            } else {
                col = cols as u128 + 1;
            }
        }
        i += 1;
    }
    if i == lo || i >= hi {
        return None;
    }
    let (ok, row) = read_digits(s, i, hi, rows as u128 + 1);
    if !ok {
        return None;
    }
    proof {
        lemma_letters_pos(s@, lo as int, i as int);
    }
    if 1 <= row && row <= rows as u128 && 1 <= col && col <= cols as u128 {
        Some(Cell { row: (row - 1) as usize, col: (col - 1) as usize })
    } else {
        None
    }
}

/// Parses a cell reference such as `B12` (column letters, then a one-based
/// row); `None` if malformed or outside a grid of `rows` x `cols`.
pub fn parse_cell_reference(reference: &str, rows: usize, cols: usize) -> (r: Option<Cell>)
    ensures
        r == cell_ref_spec(reference@, 0, reference@.len() as int, rows as int, cols as int),
{
    let s = chars_of(reference);
    cell_ref_in(&s, 0, s.len(), rows, cols)
}

fn int_literal_in(s: &Vec<char>, lo: usize, hi: usize) -> (r: Option<i32>)
    requires
        lo <= hi <= s.len(),
    ensures
        r == int_literal_spec(s@, lo as int, hi as int),
{
    if lo < hi && s[lo] == '-' {
        if lo + 1 >= hi {
            return None;
        }
        let (ok, v) = read_digits(s, lo + 1, hi, 0x8000_0001);
        if ok && v <= 0x8000_0000 {
            Some((0 - v as i64) as i32)
        } else {
            None
        }
    } else if lo < hi {
        let (ok, v) = read_digits(s, lo, hi, 0x8000_0000);
        if ok && v <= 0x7fff_ffff {
            Some(v as i32)
        } else {
            None
        }
    } else {
        None
    }
}

fn operand_in(s: &Vec<char>, lo: usize, hi: usize, rows: usize, cols: usize) -> (r: Option<Operand>)
    requires
        lo <= hi <= s.len(),
    ensures
        r == operand_spec(s@, lo as int, hi as int, rows as int, cols as int),
{
    if lo < hi && '0' <= s[lo] && s[lo] <= '9' {
        let (ok, v) = read_digits(s, lo, hi, 0x8000_0000);
        if ok && v <= 0x7fff_ffff {
            Some(Operand { type_: OperandType::Int, data: OperandData::Value(v as i32) })
        } else {
            None
        }
    } else {
        match cell_ref_in(s, lo, hi, rows, cols) {
            Some(c) => Some(Operand { type_: OperandType::Cell, data: OperandData::Cell(c) }),
            None => None,
        }
    }
}

fn range_in(s: &Vec<char>, start: usize, t: FunctionType, rows: usize, cols: usize) -> (r: Option<Function>)
    requires
        start <= s.len(),
    ensures
        r == range_spec(s@, start as int, t, rows as int, cols as int),
{
    let e = match find_char(s, ')', start, s.len()) {
        Some(e) => e,
        None => return None,
    };
    let sep = match find_char(s, ':', start, e) {
        Some(k) => k,
        None => return None,
    };
    let tl = match cell_ref_in(s, start, sep, rows, cols) {
        Some(c) => c,
        None => return None,
    };
    let br = match cell_ref_in(s, sep + 1, e, rows, cols) {
        Some(c) => c,
        None => return None,
    };
    if tl.row <= br.row && tl.col <= br.col {
        Some(Function {
            type_: t,
            data: FunctionData::RangeFunction(RangeFunction { top_left: tl, bottom_right: br }),
        })
    } else {
        None
    }
}

fn sleep_in(s: &Vec<char>, start: usize, rows: usize, cols: usize) -> (r: Option<Function>)
    requires
        start <= s.len(),
    ensures
        r == sleep_spec(s@, start as int, rows as int, cols as int),
{
    let e = match find_char(s, ')', start, s.len()) {
        Some(e) => e,
        None => return None,
    };
    if start < e && (('0' <= s[start] && s[start] <= '9') || s[start] == '-') {
        match int_literal_in(s, start, e) {
            Some(v) => Some(Function::new_sleep(v)),
            None => None,
        }
    } else {
        match cell_ref_in(s, start, e, rows, cols) {
            Some(c) => Some(Function::new_sleep_cell(c)),
            None => None,
        }
    }
}

fn arith_in(s: &Vec<char>, rows: usize, cols: usize) -> (r: Option<Function>)
    ensures
        r == arith_spec(s@, rows as int, cols as int),
{
    let n = s.len();
    if n >= 1 {
        if let Some(i) = find_operator(s, 1, n) {
            let a = match operand_in(s, 0, i, rows, cols) {
                Some(a) => a,
                None => return None,
            };
            let b = match operand_in(s, i + 1, n, rows, cols) {
                Some(b) => b,
                None => return None,
            };
            let c = s[i];
            let t = if c == '+' {
                FunctionType::Plus
            } else if c == '-' {
                FunctionType::Minus
            } else if c == '*' {
                FunctionType::Multiply
            } else {
                FunctionType::Divide
            };
            return Some(Function::new_binary_op(t, BinaryOp { first: a, second: b }));
        }
    }
    if 0 < n && (('0' <= s[0] && s[0] <= '9') || s[0] == '-') {
        match int_literal_in(s, 0, n) {
            Some(v) => Some(Function::new_constant(v)),
            None => None,
        }
    } else {
        match cell_ref_in(s, 0, n, rows, cols) {
            Some(c) => Some(Function::new_binary_op(
                FunctionType::Plus,
                BinaryOp {
                    first: Operand { type_: OperandType::Cell, data: OperandData::Cell(c) },
                    second: Operand { type_: OperandType::Int, data: OperandData::Value(0) },
                },
            )),
            None => None,
        }
    }
}

/// Parses formula text in a grid of `rows` x `cols`.
pub fn parse_formula(text: &str, rows: usize, cols: usize) -> (r: Option<Function>)
    ensures
        r == parse_spec(text@, rows as int, cols as int),
{
    let s = chars_of(text);
    parse_chars(&s, rows, cols)
}

/// Formula text without one leading `=`, if it has one.
pub open spec fn formula_text(s: Seq<char>) -> Seq<char> {
    if s.len() > 0 && s[0] == '=' {
        s.drop_first()
    } else {
        s
    }
}

/// The characters of `text` without one leading `=`.
pub fn strip_assignment(text: &str) -> (r: Vec<char>)
    ensures
        r@ == formula_text(text@),
{
    let s = chars_of(text);
    if s.len() > 0 && s[0] == '=' {
        let mut t: Vec<char> = Vec::new();
        let mut i: usize = 1;
        while i < s.len()
            invariant
                1 <= i <= s.len(),
                t@ == s@.subrange(1, i as int),
            decreases s.len() - i,
        {
            t.push(s[i]);
            assert(s@.subrange(1, i + 1) =~= s@.subrange(1, i as int).push(s@[i as int]));
            i += 1;
        }
        assert(s@.drop_first() =~= s@.subrange(1, s.len() as int));
        t
    } else {
        s
    }
}

/// Parses the formula written by the characters `s`.
pub fn parse_chars(s: &Vec<char>, rows: usize, cols: usize) -> (r: Option<Function>)
    ensures
        r == parse_spec(s@, rows as int, cols as int),
{
    if s.len() == 0 {
        return None;
    }
    let p = chars_of("MIN(");
    if starts_with_chars(s, &p) {
        return range_in(s, p.len(), FunctionType::Min, rows, cols);
    }
    let p = chars_of("MAX(");
    if starts_with_chars(s, &p) {
        return range_in(s, p.len(), FunctionType::Max, rows, cols);
    }
    let p = chars_of("AVG(");
    if starts_with_chars(s, &p) {
        return range_in(s, p.len(), FunctionType::Avg, rows, cols);
    }
    let p = chars_of("SUM(");
    if starts_with_chars(s, &p) {
        return range_in(s, p.len(), FunctionType::Sum, rows, cols);
    }
    let p = chars_of("STDEV(");
    if starts_with_chars(s, &p) {
        return range_in(s, p.len(), FunctionType::Stdev, rows, cols);
    }
    let p = chars_of("SLEEP(");
    if starts_with_chars(s, &p) {
        return sleep_in(s, p.len(), rows, cols);
    }
    arith_in(s, rows, cols)
}

/// `Some(x)` as `(x, true)`, `None` as the placeholder `(Constant(0), false)`.
pub open spec fn with_success(r: Option<Function>) -> (Function, bool) {
    match r {
        Some(f) => (f, true),
        None => (Function { type_: FunctionType::Constant, data: FunctionData::Value(0) }, false),
    }
}

/// The operand parsed, or the placeholder literal `0`.
pub open spec fn operand_or_zero(r: Option<Operand>) -> Operand {
    match r {
        Some(op) => op,
        None => int_operand(0),
    }
}

/// Parses formula text for the grid of `backend`; the flag tells success,
/// and on failure the formula is the placeholder `Constant(0)`.
pub fn parse_expression(expression: &str, backend: &Backend) -> (r: (Function, bool))
    ensures
        r == with_success(parse_spec(expression@, backend.num_rows(), backend.num_cols())),
{
    let (rows, cols) = backend.get_rows_col();
    match parse_formula(expression, rows, cols) {
        Some(f) => (f, true),
        None => (Function::new_constant(0), false),
    }
}

/// Parses the two operands of an arithmetic formula; `success` tells whether
/// both parsed, and an operand that did not is the placeholder literal `0`.
pub fn parse_binary_op(operand1: &str, operand2: &str, backend: &Backend, success: &mut bool) -> (r: BinaryOp)
    ensures
        ({
            let a = operand_spec(operand1@, 0, operand1@.len() as int, backend.num_rows(), backend.num_cols());
            let b = operand_spec(operand2@, 0, operand2@.len() as int, backend.num_rows(), backend.num_cols());
            &&& *final(success) == (a is Some && b is Some)
            &&& r.first == operand_or_zero(a)
            &&& r.second == operand_or_zero(b)
        }),
{
    let (rows, cols) = backend.get_rows_col();
    let s1 = chars_of(operand1);
    let s2 = chars_of(operand2);
    let a = operand_in(&s1, 0, s1.len(), rows, cols);
    let b = operand_in(&s2, 0, s2.len(), rows, cols);
    *success = a.is_some() && b.is_some();
    let zero = Operand { type_: OperandType::Int, data: OperandData::Value(0) };
    BinaryOp {
        first: match a {
            Some(op) => op,
            None => zero,
        },
        second: match b {
            Some(op) => op,
            None => zero,
        },
    }
}

/// Parses a range aggregate of kind `function_type` whose name and `(` take
/// the first 6 characters for `STDEV` and 4 for the others; on failure the
/// formula is the placeholder `Constant(0)`.
pub fn parse_range_function(expression: &str, function_type: FunctionType, backend: &Backend) -> (r: (Function, bool))
    requires
        is_range_type(function_type),
        expression@.len() >= if function_type is Stdev { 6int } else { 4int },
    ensures
        r == with_success(range_spec(expression@, if function_type is Stdev { 6int } else { 4int },
            function_type, backend.num_rows(), backend.num_cols())),
{
    let (rows, cols) = backend.get_rows_col();
    let s = chars_of(expression);
    let start: usize = if let FunctionType::Stdev = function_type { 6 } else { 4 };
    match range_in(&s, start, function_type, rows, cols) {
        Some(f) => (f, true),
        None => (Function::new_constant(0), false),
    }
}

/// Why a command's arguments were refused.
#[derive(Debug, Clone, Copy, PartialEq, Eq, Structural)]
pub enum CommandError {
    /// The command's shape is wrong: a missing `)`, `:` or `,`, or an unknown order.
    InvalidCommand,
    /// A cell reference is malformed or outside the grid.
    InvalidCellReference,
    /// The corners of the range are not ordered as the command needs.
    InvalidRange,
    /// The clipboard holds no values.
    NothingToPaste,
    /// The pasted block would reach past the grid.
    PasteOutOfGrid,
}

/// The file name of `load(<name>)` / `save(<name>)`: the text from index 5
/// up to the first `)`, if not empty.
pub open spec fn load_or_save_spec(s: Seq<char>) -> Option<Seq<char>> {
    let e = find_in(s, ')', 5, s.len() as int);
    if e <= 5 {
        None
    } else {
        Some(s.subrange(5, e))
    }
}

/// Two cell references `<a>:<b>` between index `start` and the first `)`.
pub open spec fn two_cells_spec(s: Seq<char>, start: int, rows: int, cols: int) -> Result<(Cell, Cell), CommandError> {
    let e = find_in(s, ')', start, s.len() as int);
    let sep = find_in(s, ':', start, e);
    if e < 0 || sep < 0 {
        Err(CommandError::InvalidCommand)
    } else {
        match (cell_ref_spec(s, start, sep, rows, cols), cell_ref_spec(s, sep + 1, e, rows, cols)) {
            (Some(a), Some(b)) => Ok((a, b)),
            _ => Err(CommandError::InvalidCellReference),
        }
    }
}

/// `copy(<a>:<b>)` or `cut(<a>:<b>)`.
pub open spec fn cut_or_copy_spec(s: Seq<char>, rows: int, cols: int) -> Result<(Cell, Cell), CommandError> {
    two_cells_spec(s, if has_prefix(s, "copy("@) { 5 } else { 4 }, rows, cols)
}

/// `paste(<cell>)`.
pub open spec fn paste_spec(s: Seq<char>, rows: int, cols: int) -> Result<Cell, CommandError> {
    let e = find_in(s, ')', 6, s.len() as int);
    if e < 0 {
        Err(CommandError::InvalidCommand)
    } else {
        match cell_ref_spec(s, 6, e, rows, cols) {
            Some(c) => Ok(c),
            None => Err(CommandError::InvalidCellReference),
        }
    }
}

/// `autofill(<a>:<b>,<destination>)`.
pub open spec fn autofill_spec(s: Seq<char>, rows: int, cols: int) -> Result<(Cell, Cell, Cell), CommandError> {
    let e = find_in(s, ')', 9, s.len() as int);
    let sep = find_in(s, ':', 9, e);
    let comma = find_in(s, ',', 9, e);
    if e < 0 || sep < 0 || comma < sep + 1 {
        Err(CommandError::InvalidCommand)
    } else {
        match (cell_ref_spec(s, comma + 1, e, rows, cols), cell_ref_spec(s, 9, sep, rows, cols), cell_ref_spec(s, sep + 1, comma, rows, cols)) {
            (Some(d), Some(a), Some(b)) => Ok((a, b, d)),
            _ => Err(CommandError::InvalidCellReference),
        }
    }
}

/// `sorta(<a>:<b>)` (ascending) or `sortd(<a>:<b>)` (descending) over part
/// of one column.
pub open spec fn sort_spec(s: Seq<char>, rows: int, cols: int) -> Result<(Cell, Cell, bool), CommandError> {
    if s[4] != 'a' && s[4] != 'd' {
        Err(CommandError::InvalidCommand)
    } else {
        match two_cells_spec(s, 6, rows, cols) {
            Err(e) => Err(e),
            Ok((a, b)) => if a.row > b.row || a.col != b.col {
                Err(CommandError::InvalidRange)
            } else {
                Ok((a, b, s[4] == 'a'))
            },
        }
    }
}

fn two_cells_in(s: &Vec<char>, start: usize, rows: usize, cols: usize) -> (r: Result<(Cell, Cell), CommandError>)
    requires
        start <= s.len(),
    ensures
        r == two_cells_spec(s@, start as int, rows as int, cols as int),
{
    let e = match find_char(s, ')', start, s.len()) {
        Some(e) => e,
        None => return Err(CommandError::InvalidCommand),
    };
    let sep = match find_char(s, ':', start, e) {
        Some(k) => k,
        None => return Err(CommandError::InvalidCommand),
    };
    match (cell_ref_in(s, start, sep, rows, cols), cell_ref_in(s, sep + 1, e, rows, cols)) {
        (Some(a), Some(b)) => Ok((a, b)),
        _ => Err(CommandError::InvalidCellReference),
    }
}

/// The file name of a `load(<name>)` or `save(<name>)` command.
pub fn parse_load_or_save_cmd(expression: &str) -> (r: Option<String>)
    requires
        expression@.len() >= 5,
    ensures
        match (r, load_or_save_spec(expression@)) {
            (Some(a), Some(b)) => a@ == b,
            (None, None) => true,
            _ => false,
        },
{
    let s = chars_of(expression);
    let e = match find_char(&s, ')', 5, s.len()) {
        Some(e) => e,
        None => return None,
    };
    if e == 5 {
        return None;
    }
    let mut name: Vec<char> = Vec::new();
    let mut i: usize = 5;
    while i < e
        invariant
            5 <= i <= e <= s.len(),
            name@ == s@.subrange(5, i as int),
        decreases e - i,
    {
        name.push(s[i]);
        assert(s@.subrange(5, i + 1) =~= s@.subrange(5, i as int).push(s@[i as int]));
        i += 1;
    }
    Some(crate::text::string_from(&name))
}

/// The corners of a `copy(<a>:<b>)` or `cut(<a>:<b>)` command.
pub fn parse_cut_or_copy(backend: &Backend, expression: &str) -> (r: Result<(Cell, Cell), CommandError>)
    requires
        expression@.len() >= 4,
    ensures
        r == cut_or_copy_spec(expression@, backend.num_rows(), backend.num_cols()),
{
    let (rows, cols) = backend.get_rows_col();
    let s = chars_of(expression);
    proof {
        reveal_strlit("copy(");
    }
    let start: usize = if starts_with_chars(&s, &chars_of("copy(")) { 5 } else { 4 };
    two_cells_in(&s, start, rows, cols)
}

/// The destination of a `paste(<cell>)` command.
pub fn parse_paste(backend: &Backend, expression: &str) -> (r: Result<Cell, CommandError>)
    requires
        expression@.len() >= 6,
    ensures
        r == paste_spec(expression@, backend.num_rows(), backend.num_cols()),
{
    let (rows, cols) = backend.get_rows_col();
    let s = chars_of(expression);
    let e = match find_char(&s, ')', 6, s.len()) {
        Some(e) => e,
        None => return Err(CommandError::InvalidCommand),
    };
    match cell_ref_in(&s, 6, e, rows, cols) {
        Some(c) => Ok(c),
        None => Err(CommandError::InvalidCellReference),
    }
}

/// The source corners and the destination of an `autofill(<a>:<b>,<c>)` command.
pub fn parse_autofill(backend: &Backend, expression: &str) -> (r: Result<(Cell, Cell, Cell), CommandError>)
    requires
        expression@.len() >= 9,
    ensures
        r == autofill_spec(expression@, backend.num_rows(), backend.num_cols()),
{
    let (rows, cols) = backend.get_rows_col();
    let s = chars_of(expression);
    let e = match find_char(&s, ')', 9, s.len()) {
        Some(e) => e,
        None => return Err(CommandError::InvalidCommand),
    };
    let sep = match find_char(&s, ':', 9, e) {
        Some(k) => k,
        None => return Err(CommandError::InvalidCommand),
    };
    let comma = match find_char(&s, ',', 9, e) {
        Some(k) => k,
        None => return Err(CommandError::InvalidCommand),
    };
    if comma < sep + 1 {
        return Err(CommandError::InvalidCommand);
    }
    match (cell_ref_in(&s, comma + 1, e, rows, cols), cell_ref_in(&s, 9, sep, rows, cols), cell_ref_in(&s, sep + 1, comma, rows, cols)) {
        (Some(d), Some(a), Some(b)) => Ok((a, b, d)),
        _ => Err(CommandError::InvalidCellReference),
    }
}

/// The corners and the order (`true` for ascending) of a `sorta(<a>:<b>)` or
/// `sortd(<a>:<b>)` command.
pub fn parse_sort(backend: &Backend, expression: &str) -> (r: Result<(Cell, Cell, bool), CommandError>)
    requires
        expression@.len() >= 6,
    ensures
        r == sort_spec(expression@, backend.num_rows(), backend.num_cols()),
{
    let (rows, cols) = backend.get_rows_col();
    let s = chars_of(expression);
    let order = s[4];
    if order != 'a' && order != 'd' {
        return Err(CommandError::InvalidCommand);
    }
    match two_cells_in(&s, 6, rows, cols) {
        Err(e) => Err(e),
        Ok((a, b)) => if a.row > b.row || a.col != b.col {
            Err(CommandError::InvalidRange)
        } else {
            Ok((a, b, order == 'a'))
        },
    }
}

} // verus!
