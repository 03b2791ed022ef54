//! Command-line arguments of the interactive program.
use vstd::prelude::*;
use crate::parser::{all_digits, arith_spec, chars_of, digits_value, find_op, formula_text, has_prefix, int_literal_spec, is_digit, is_op_char, parse_spec, read_digits};
use crate::structs::{Function, FunctionData, FunctionType};
use crate::text::string_from;

verus! {

/// Rows and columns used when none are given.
pub const DEFAULT_SIZE: usize = 100;

/// Largest number of rows accepted.
pub const MAX_ROWS: usize = 999;

/// Largest number of columns accepted (`ZZZ`).
pub const MAX_COLS: usize = 18278;

/// The number an argument writes: an optional `+`, then decimal digits,
/// fitting in `usize`.
pub open spec fn size_arg(s: Seq<char>) -> Option<usize> {
    let lo: int = if s.len() > 0 && s[0] == '+' { 1 } else { 0 };
    if lo < s.len() && all_digits(s, lo, s.len() as int) && digits_value(s, lo, s.len() as int) <= usize::MAX {
        Some(digits_value(s, lo, s.len() as int) as usize)
    } else {
        None
    }
}

/// The decimal digits of `n`.
pub open spec fn decimal(n: nat) -> Seq<char>
    decreases n,
{
    if n < 10 {
        seq![((('0' as int) + n) as u8) as char]
    } else {
        decimal(n / 10).push(((('0' as int) + n % 10) as u8) as char)
    }
}

/// The grid size the arguments ask for, or the message to show: no
/// arguments give the default size, `<program> <rows> <columns>` gives those
/// when both are numbers within the limits.
pub open spec fn dimensions_spec(args: Seq<Seq<char>>) -> Result<(usize, usize), Seq<char>> {
    if args.len() == 3 {
        match (size_arg(args[1]), size_arg(args[2])) {
            (None, _) => Err("Invalid argument for rows: "@ + args[1]),
            (Some(_), None) => Err("Invalid argument for columns: "@ + args[2]),
            (Some(r), Some(c)) => bounded(r, c),
        }
    } else if args.len() > 1 {
        Err("Usage: "@ + args[0] + " [rows columns]"@)
    } else {
        bounded(DEFAULT_SIZE, DEFAULT_SIZE)
    }
}

pub open spec fn bounded(r: usize, c: usize) -> Result<(usize, usize), Seq<char>> {
    if 1 <= r <= MAX_ROWS && 1 <= c <= MAX_COLS {
        Ok((r, c))
    } else {
        Err("Invalid argument for rows or columns: "@ + decimal(r as nat) + " "@ + decimal(c as nat))
    }
}

pub open spec fn args_view(args: Seq<String>) -> Seq<Seq<char>> {
    args.map_values(|a: String| a@)
}

/// The decimal digits of `n`.
pub fn decimal_chars(n: usize) -> (r: Vec<char>)
    ensures
        r@ == decimal(n as nat),
    decreases n,
{
    if n < 10 {
        let mut v: Vec<char> = Vec::new();
        v.push((CODE_0 + n as u8) as char);
        v
    } else {
        let mut v = decimal_chars(n / 10);
        v.push((CODE_0 + (n % 10) as u8) as char);
        v
    }
}

/// The character code of `0`.
const CODE_0: u8 = 48;

/// Appends the characters `w` to `v`.
pub fn append(v: &mut Vec<char>, w: &Vec<char>)
    ensures
        final(v)@ == old(v)@ + w@,
{
    let mut i: usize = 0;
    while i < w.len()
        invariant
            i <= w.len(),
            v@ == old(v)@ + w@.take(i as int),
        decreases w.len() - i,
    {
        v.push(w[i]);
        assert(w@.take(i + 1) =~= w@.take(i as int).push(w@[i as int]));
        i += 1;
    }
    assert(w@.take(w.len() as int) =~= w@);
}

fn parse_size(s: &String) -> (r: Option<usize>)
    ensures
        r == size_arg(s@),
{
    let c = chars_of(s.as_str());
    let lo: usize = if c.len() > 0 && c[0] == '+' { 1 } else { 0 };
    if lo >= c.len() {
        return None;
    }
    let (ok, v) = read_digits(&c, lo, c.len(), usize::MAX as u128 + 1);
    if ok && v <= usize::MAX as u128 {
        Some(v as usize)
    } else {
        None
    }
}

fn check_bounds(r: usize, c: usize) -> (res: Result<(usize, usize), String>)
    ensures
        match (res, bounded(r, c)) {
            (Ok(a), Ok(b)) => a == b,
            (Err(a), Err(b)) => a@ == b,
            _ => false,
        },
{
    if 1 <= r && r <= MAX_ROWS && 1 <= c && c <= MAX_COLS {
        Ok((r, c))
    } else {
        let mut m = chars_of("Invalid argument for rows or columns: ");
        append(&mut m, &decimal_chars(r));
        append(&mut m, &chars_of(" "));
        append(&mut m, &decimal_chars(c));
        Err(string_from(&m))
    }
}

/// Reads the grid size from the program's arguments (the program name
/// first), or returns the message to show.
pub fn cli_dimensions(args: &Vec<String>) -> (res: Result<(usize, usize), String>)
    ensures
        match (res, dimensions_spec(args_view(args@))) {
            (Ok(a), Ok(b)) => a == b,
            (Err(a), Err(b)) => a@ == b,
            _ => false,
        },
{
    let ghost av = args_view(args@);
    if args.len() == 3 {
        assert(av[1] == args@[1]@ && av[2] == args@[2]@);
        let r = match parse_size(&args[1]) {
            Some(r) => r,
            None => {
                let mut m = chars_of("Invalid argument for rows: ");
                append(&mut m, &chars_of(args[1].as_str()));
                return Err(string_from(&m));
            },
        };
        let c = match parse_size(&args[2]) {
            Some(c) => c,
            None => {
                let mut m = chars_of("Invalid argument for columns: ");
                append(&mut m, &chars_of(args[2].as_str()));
                return Err(string_from(&m));
            },
        };
        check_bounds(r, c)
    } else if args.len() > 1 {
        assert(av[0] == args@[0]@);
        let mut m = chars_of("Usage: ");
        append(&mut m, &chars_of(args[0].as_str()));
        append(&mut m, &chars_of(" [rows columns]"));
        Err(string_from(&m))
    } else {
        check_bounds(DEFAULT_SIZE, DEFAULT_SIZE)
    }
}

/// The text of an integer: an optional `-`, then its decimal digits.
pub open spec fn integer_chars(v: i32) -> Seq<char> {
    if v < 0 {
        seq!['-'] + decimal((-v) as nat)
    } else {
        decimal(v as nat)
    }
}

proof fn lemma_digits_agree(s1: Seq<char>, s2: Seq<char>, lo: int, i: int)
    requires
        forall|j: int| lo <= j < i ==> s1[j] == s2[j],
    ensures
        digits_value(s1, lo, i) == digits_value(s2, lo, i),
    decreases i - lo,
{
    if i > lo {
        lemma_digits_agree(s1, s2, lo, i - 1);
    }
}

proof fn lemma_decimal(n: nat)
    ensures
        decimal(n).len() >= 1,
        all_digits(decimal(n), 0, decimal(n).len() as int),
        digits_value(decimal(n), 0, decimal(n).len() as int) == n,
    decreases n,
{
    if n >= 10 {
        lemma_decimal(n / 10);
        let t = decimal(n / 10);
        let s = decimal(n);
        let c = ((('0' as int) + n % 10) as u8) as char;
        assert(s == t.push(c));
        assert(c as int - '0' as int == n % 10);
        lemma_digits_agree(s, t, 0, t.len() as int);
        assert forall|j: int| 0 <= j < s.len() implies is_digit(#[trigger] s[j]) by {
            if j < t.len() {
                assert(s[j] == t[j]);
            }
        }
    } else {
        let c = ((('0' as int) + n) as u8) as char;
        assert(c as int - '0' as int == n);
        assert(digits_value(decimal(n), 0, 0) == 0);
    }
}

proof fn lemma_digits_shift(t: Seq<char>, i: int)
    requires
        0 <= i <= t.len(),
    ensures
        digits_value(seq!['-'] + t, 1, i + 1) == digits_value(t, 0, i),
    decreases i,
{
    if i > 0 {
        lemma_digits_shift(t, i - 1);
        assert((seq!['-'] + t)[i] == t[i - 1]);
    }
}

proof fn lemma_no_op(s: Seq<char>, lo: int, hi: int)
    requires
        forall|j: int| lo <= j < hi ==> !is_op_char(#[trigger] s[j]),
    ensures
        find_op(s, lo, hi) == -1,
    decreases hi - lo,
{
    if lo < hi {
        lemma_no_op(s, lo + 1, hi);
    }
}

/// The text of an integer parses back to that integer as a constant.
pub proof fn lemma_integer_parses(v: i32, rows: int, cols: int)
    ensures
        parse_spec(formula_text(integer_chars(v)), rows, cols)
            == Some(Function { type_: FunctionType::Constant, data: FunctionData::Value(v) }),
{
    let s = integer_chars(v);
    let m: nat = if v < 0 { (-v) as nat } else { v as nat };
    lemma_decimal(m);
    let d = decimal(m);
    let n = s.len() as int;
    if v < 0 {
        assert(s == seq!['-'] + d);
        lemma_digits_shift(d, d.len() as int);
        assert forall|j: int| 1 <= j < n implies is_digit(#[trigger] s[j]) by {
            assert(s[j] == d[j - 1]);
        }
    } else {
        assert(s == d);
    }
    assert(s[0] == '-' || is_digit(s[0])) by {
        if v >= 0 {
            assert(is_digit(d[0]));
        }
    }
    assert(formula_text(s) == s);
    reveal_strlit("MIN(");
    reveal_strlit("MAX(");
    reveal_strlit("AVG(");
    reveal_strlit("SUM(");
    reveal_strlit("STDEV(");
    reveal_strlit("SLEEP(");
    assert(!has_prefix(s, "MIN("@)) by { if has_prefix(s, "MIN("@) { assert(s.subrange(0, 4)[0] == s[0]); } }
    assert(!has_prefix(s, "MAX("@)) by { if has_prefix(s, "MAX("@) { assert(s.subrange(0, 4)[0] == s[0]); } }
    assert(!has_prefix(s, "AVG("@)) by { if has_prefix(s, "AVG("@) { assert(s.subrange(0, 4)[0] == s[0]); } }
    assert(!has_prefix(s, "SUM("@)) by { if has_prefix(s, "SUM("@) { assert(s.subrange(0, 4)[0] == s[0]); } }
    assert(!has_prefix(s, "STDEV("@)) by { if has_prefix(s, "STDEV("@) { assert(s.subrange(0, 6)[0] == s[0]); } }
    assert(!has_prefix(s, "SLEEP("@)) by { if has_prefix(s, "SLEEP("@) { assert(s.subrange(0, 6)[0] == s[0]); } }
    assert forall|j: int| 1 <= j < n implies !is_op_char(#[trigger] s[j]) by {
        if v < 0 {
            assert(is_digit(s[j]));
        } else {
            assert(is_digit(d[j]));
        }
    }
    lemma_no_op(s, 1, n);
    assert(arith_spec(s, rows, cols) == Some(Function { type_: FunctionType::Constant, data: FunctionData::Value(v) }));
}

} // verus!
