//! What a formula evaluates to, as spec functions over the grid's cells, and
//! the arithmetic on plain values that the evaluator runs.
use vstd::prelude::*;
use vstd::arithmetic::div_mod::{lemma_fundamental_div_mod, lemma_fundamental_div_mod_converse};
use crate::structs::{
    is_binary_type, is_range_type, BinaryOp, CellData, CellError, Function, FunctionData,
    FunctionType, Operand, OperandData, RangeFunction,
};

verus! {

pub open spec fn fits_i32(x: int) -> bool {
    i32::MIN <= x <= i32::MAX
}

/// `x` reduced into `i32` modulo 2^32, for `|x| < 2^32`.
pub open spec fn wrap_i32(x: int) -> i32 {
    if x > i32::MAX {
        (x - 0x1_0000_0000) as i32
    } else if x < i32::MIN {
        (x + 0x1_0000_0000) as i32
    } else {
        x as i32
    }
}

pub open spec fn abs_int(x: int) -> int {
    if x < 0 {
        -x
    } else {
        x
    }
}

/// Integer division rounding toward zero.
pub open spec fn trunc_div(a: int, b: int) -> int {
    let q = abs_int(a) / abs_int(b);
    if (a < 0) != (b < 0) {
        -q
    } else {
        q
    }
}

pub open spec fn as_pair(r: Result<i32, CellError>) -> (i32, CellError) {
    match r {
        Ok(v) => (v, CellError::NoError),
        Err(e) => (0, e),
    }
}

/// The value an operand reads: a literal, or a referenced cell's value, or
/// that cell's error unchanged.
pub open spec fn operand_result(g: Seq<Seq<CellData>>, op: Operand) -> Result<i32, CellError> {
    match op.data {
        OperandData::Cell(c) => {
            let d = g[c.row as int][c.col as int];
            if d.error == CellError::NoError {
                Ok(d.value)
            } else {
                Err(d.error)
            }
        },
        OperandData::Value(v) => Ok(v),
    }
}

/// `+` and `-` wrap; `*` fails with `Overflow` when the product does not fit;
/// `/` truncates, fails with `DivideByZero` on a zero divisor and with
/// `Overflow` when the quotient does not fit.
pub open spec fn arith_result(t: FunctionType, x: i32, y: i32) -> Result<i32, CellError> {
    match t {
        FunctionType::Plus => Ok(wrap_i32(x + y)),
        FunctionType::Minus => Ok(wrap_i32(x - y)),
        FunctionType::Multiply => if fits_i32(x * y) {
            Ok((x * y) as i32)
        } else {
            Err(CellError::Overflow)
        },
        FunctionType::Divide => if y == 0 {
            Err(CellError::DivideByZero)
        } else if fits_i32(trunc_div(x as int, y as int)) {
            Ok(trunc_div(x as int, y as int) as i32)
        } else {
            Err(CellError::Overflow)
        },
        _ => Err(CellError::DependencyError),
    }
}

/// The first operand's error wins, then the second's, then the operation's own.
pub open spec fn binary_result(g: Seq<Seq<CellData>>, t: FunctionType, b: BinaryOp) -> Result<i32, CellError> {
    match operand_result(g, b.first) {
        Err(e) => Err(e),
        Ok(x) => match operand_result(g, b.second) {
            Err(e) => Err(e),
            Ok(y) => arith_result(t, x, y),
        },
    }
}

/// The cells `(r, c0..=c1)`, left to right.
pub open spec fn row_cells(g: Seq<Seq<CellData>>, r: int, c0: int, c1: int) -> Seq<CellData> {
    Seq::new((c1 - c0 + 1) as nat, |k: int| g[r][c0 + k])
}

/// The cells of rows `r0..=r`, columns `c0..=c1`, in row-major order.
pub open spec fn block_cells(g: Seq<Seq<CellData>>, r0: int, r: int, c0: int, c1: int) -> Seq<CellData>
    decreases r - r0 + 1,
{
    if r < r0 {
        seq![]
    } else {
        block_cells(g, r0, r - 1, c0, c1) + row_cells(g, r, c0, c1)
    }
}

pub open spec fn range_cells(g: Seq<Seq<CellData>>, rf: RangeFunction) -> Seq<CellData> {
    block_cells(g, rf.top_left.row as int, rf.bottom_right.row as int, rf.top_left.col as int, rf.bottom_right.col as int)
}

/// The error of the first cell in `s` that has one, else `NoError`.
pub open spec fn first_error(s: Seq<CellData>) -> CellError
    decreases s.len(),
{
    if s.len() == 0 {
        CellError::NoError
    } else if first_error(s.drop_last()) != CellError::NoError {
        first_error(s.drop_last())
    } else {
        s.last().error
    }
}

pub open spec fn values_of(s: Seq<CellData>) -> Seq<i32> {
    s.map_values(|d: CellData| d.value)
}

pub open spec fn sum_of(s: Seq<i32>) -> int
    decreases s.len(),
{
    if s.len() == 0 {
        0
    } else {
        sum_of(s.drop_last()) + s.last()
    }
}

/// The least value of `s`, or `i32::MAX` for an empty sequence.
pub open spec fn min_of(s: Seq<i32>) -> i32
    decreases s.len(),
{
    if s.len() == 0 {
        i32::MAX
    } else if s.last() < min_of(s.drop_last()) {
        s.last()
    } else {
        min_of(s.drop_last())
    }
}

/// The greatest value of `s`, or `i32::MIN` for an empty sequence.
pub open spec fn max_of(s: Seq<i32>) -> i32
    decreases s.len(),
{
    if s.len() == 0 {
        i32::MIN
    } else if s.last() > max_of(s.drop_last()) {
        s.last()
    } else {
        max_of(s.drop_last())
    }
}

/// The sum of squared deviations of `s` from `m`.
pub open spec fn sq_dev(s: Seq<i32>, m: int) -> int
    decreases s.len(),
{
    if s.len() == 0 {
        0
    } else {
        sq_dev(s.drop_last(), m) + (s.last() - m) * (s.last() - m)
    }
}

/// `r` is `sqrt(q / 4)` rounded to the nearest integer, halves rounded up:
/// `(r - 1/2)^2 <= q/4 < (r + 1/2)^2`.
pub open spec fn is_rounded_half_root(r: int, q: int) -> bool {
    &&& r >= 0
    &&& (r == 0 || (2 * r - 1) * (2 * r - 1) <= q)
    &&& q < (2 * r + 1) * (2 * r + 1)
}

pub open spec fn rounded_half_root(q: int) -> int {
    choose|r: int| is_rounded_half_root(r, q)
}

/// Population standard deviation around the truncated integer mean, rounded
/// to the nearest integer: `round(sqrt(sq_dev(s, mean) / n))`.
pub open spec fn stdev_of(s: Seq<i32>) -> int {
    let n = s.len() as int;
    let mean = trunc_div(sum_of(s), n);
    rounded_half_root((4 * sq_dev(s, mean)) / n)
}

pub open spec fn clamp_i32(x: int) -> i32 {
    if x > i32::MAX {
        i32::MAX
    } else {
        x as i32
    }
}

/// The aggregate of kind `t` over the values `v` of an error-free range.
pub open spec fn aggregate_result(t: FunctionType, v: Seq<i32>) -> Result<i32, CellError> {
    match t {
        FunctionType::Min => Ok(min_of(v)),
        FunctionType::Max => Ok(max_of(v)),
        FunctionType::Sum => if fits_i32(sum_of(v)) {
            Ok(sum_of(v) as i32)
        } else {
            Err(CellError::Overflow)
        },
        FunctionType::Avg => if v.len() == 0 {
            Err(CellError::DivideByZero)
        } else {
            Ok(trunc_div(sum_of(v), v.len() as int) as i32)
        },
        FunctionType::Stdev => if v.len() == 0 {
            Err(CellError::DivideByZero)
        } else {
            Ok(clamp_i32(stdev_of(v)))
        },
        _ => Err(CellError::DependencyError),
    }
}

/// A range aggregate: the first error in row-major order, else the aggregate.
pub open spec fn range_result(g: Seq<Seq<CellData>>, t: FunctionType, rf: RangeFunction) -> Result<i32, CellError> {
    let cells = range_cells(g, rf);
    if first_error(cells) != CellError::NoError {
        Err(first_error(cells))
    } else {
        aggregate_result(t, values_of(cells))
    }
}

/// What formula `f` evaluates to against the cells `g`, as `(value, error)`.
pub open spec fn eval_spec(g: Seq<Seq<CellData>>, f: Function) -> (i32, CellError) {
    match f.data {
        FunctionData::BinaryOp(b) => if is_binary_type(f.type_) {
            as_pair(binary_result(g, f.type_, b))
        } else {
            (0, CellError::DependencyError)
        },
        FunctionData::RangeFunction(rf) => if is_range_type(f.type_) {
            as_pair(range_result(g, f.type_, rf))
        } else {
            (0, CellError::DependencyError)
        },
        FunctionData::SleepValue(op) => as_pair(operand_result(g, op)),
        FunctionData::Value(v) => (v, CellError::NoError),
    }
}

/// Adds or subtracts, wrapping modulo 2^32.
pub fn wrapping_combine(x: i32, y: i32, subtract: bool) -> (r: i32)
    ensures
        r == if subtract { wrap_i32(x - y) } else { wrap_i32(x + y) },
{
    let t: i64 = if subtract { x as i64 - y as i64 } else { x as i64 + y as i64 };
    if t > i32::MAX as i64 {
        (t - 0x1_0000_0000) as i32
    } else if t < i32::MIN as i64 {
        (t + 0x1_0000_0000) as i32
    } else {
        t as i32
    }
}

/// Multiplies, or fails with `Overflow` when the product does not fit in `i32`.
pub fn checked_multiply(x: i32, y: i32) -> (r: Result<i32, CellError>)
    ensures
        r == arith_result(FunctionType::Multiply, x, y),
{
    assert(-0x4000_0000_0000_0000 <= (x as int) * (y as int) <= 0x4000_0000_0000_0000) by (nonlinear_arith)
        requires
            i32::MIN <= x <= i32::MAX,
            i32::MIN <= y <= i32::MAX,
    ;
    let p: i64 = x as i64 * y as i64;
    if i32::MIN as i64 <= p && p <= i32::MAX as i64 {
        Ok(p as i32)
    } else {
        Err(CellError::Overflow)
    }
}

/// Divides rounding toward zero, or fails with `DivideByZero` / `Overflow`.
pub fn checked_divide(x: i32, y: i32) -> (r: Result<i32, CellError>)
    ensures
        r == arith_result(FunctionType::Divide, x, y),
{
    if y == 0 {
        return Err(CellError::DivideByZero);
    }
    let ax: u64 = if x < 0 { (0 - x as i64) as u64 } else { x as u64 };
    let ay: u64 = if y < 0 { (0 - y as i64) as u64 } else { y as u64 };
    let q: u64 = ax / ay;
    assert(q <= ax) by (nonlinear_arith)
        requires
            ay >= 1,
            q == ax / ay,
    ;
    let sq: i64 = if (x < 0) != (y < 0) { 0 - q as i64 } else { q as i64 };
    if i32::MIN as i64 <= sq && sq <= i32::MAX as i64 {
        Ok(sq as i32)
    } else {
        Err(CellError::Overflow)
    }
}

/// The least of `v`, `i32::MAX` for an empty vector.
pub fn min_value(v: &Vec<i32>) -> (r: i32)
    ensures
        r == min_of(v@),
{
    let mut m: i32 = i32::MAX;
    let mut i: usize = 0;
    while i < v.len()
        invariant
            i <= v.len(),
            m == min_of(v@.take(i as int)),
        decreases v.len() - i,
    {
        assert(v@.take(i as int + 1).drop_last() =~= v@.take(i as int));
        if v[i] < m {
            m = v[i];
        }
        i += 1;
    }
    assert(v@.take(v.len() as int) =~= v@);
    m
}

/// The greatest of `v`, `i32::MIN` for an empty vector.
pub fn max_value(v: &Vec<i32>) -> (r: i32)
    ensures
        r == max_of(v@),
{
    let mut m: i32 = i32::MIN;
    let mut i: usize = 0;
    while i < v.len()
        invariant
            i <= v.len(),
            m == max_of(v@.take(i as int)),
        decreases v.len() - i,
    {
        assert(v@.take(i as int + 1).drop_last() =~= v@.take(i as int));
        if v[i] > m {
            m = v[i];
        }
        i += 1;
    }
    assert(v@.take(v.len() as int) =~= v@);
    m
}

/// The exact sum of `v`.
pub fn sum_value(v: &Vec<i32>) -> (r: i128)
    ensures
        r == sum_of(v@),
        -0x8000_0000 * v.len() <= r <= 0x7fff_ffff * v.len(),
{
    let mut s: i128 = 0;
    let mut i: usize = 0;
    while i < v.len()
        invariant
            i <= v.len(),
            s == sum_of(v@.take(i as int)),
            -0x8000_0000 * i <= s <= 0x7fff_ffff * i,
        decreases v.len() - i,
    {
        assert(v@.take(i as int + 1).drop_last() =~= v@.take(i as int));
        s = s + v[i] as i128;
        i += 1;
    }
    assert(v@.take(v.len() as int) =~= v@);
    s
}

proof fn lemma_div_bounds(a: int, n: int, c: int)
    requires
        n > 0,
        c >= 0,
        0 <= a <= n * c,
    ensures
        0 <= a / n <= c,
{
    assert(0 <= a / n <= c) by (nonlinear_arith)
        requires
            n > 0,
            c >= 0,
            0 <= a <= n * c,
    ;
}

/// Integer mean of a non-empty vector, truncated toward zero.
fn mean_value(v: &Vec<i32>) -> (r: i32)
    requires
        v.len() > 0,
    ensures
        r == trunc_div(sum_of(v@), v.len() as int),
{
    let s = sum_value(v);
    let n = v.len() as u128;
    if s >= 0 {
        let q = (s as u128) / n;
        proof {
            lemma_div_bounds(s as int, n as int, 0x7fff_ffff);
        }
        q as i32
    } else {
        let q = ((0 - s) as u128) / n;
        proof {
            lemma_div_bounds(-s as int, n as int, 0x8000_0000);
        }
        (0 - q as i64) as i32
    }
}

/// Truncated integer mean, or `DivideByZero` for an empty vector.
pub fn average_value(v: &Vec<i32>) -> (r: Result<i32, CellError>)
    ensures
        r == aggregate_result(FunctionType::Avg, v@),
{
    if v.len() == 0 {
        Err(CellError::DivideByZero)
    } else {
        Ok(mean_value(v))
    }
}

/// The sum of `v`, or `Overflow` when it does not fit in `i32`.
pub fn total_value(v: &Vec<i32>) -> (r: Result<i32, CellError>)
    ensures
        r == aggregate_result(FunctionType::Sum, v@),
{
    let s = sum_value(v);
    if i32::MIN as i128 <= s && s <= i32::MAX as i128 {
        Ok(s as i32)
    } else {
        Err(CellError::Overflow)
    }
}

proof fn lemma_root_unique(r1: int, r2: int, q: int)
    requires
        is_rounded_half_root(r1, q),
        is_rounded_half_root(r2, q),
    ensures
        r1 == r2,
{
    if r1 < r2 {
        assert((2 * r1 + 1) * (2 * r1 + 1) <= (2 * r2 - 1) * (2 * r2 - 1)) by (nonlinear_arith)
            requires
                0 <= r1 < r2,
        ;
    } else if r2 < r1 {
        assert((2 * r2 + 1) * (2 * r2 + 1) <= (2 * r1 - 1) * (2 * r1 - 1)) by (nonlinear_arith)
            requires
                0 <= r2 < r1,
        ;
    }
}

/// `sqrt(q / 4)` rounded to the nearest integer, for `q < 2^68`.
fn rounded_half_root_of(q: u128) -> (r: u64)
    requires
        q < 0x10_0000_0000_0000_0000,
    ensures
        r as int == rounded_half_root(q as int),
{
    if q == 0 {
        assert(is_rounded_half_root(0, 0)) by {
            assert((2 * 0 + 1) * (2 * 0 + 1) == 1) by (nonlinear_arith);
        }
        proof {
            lemma_root_unique(0, rounded_half_root(0), 0);
        }
        return 0;
    }
    let mut lo: u64 = 0;
    let mut hi: u64 = 0x4_0000_0000;
    assert((2 * hi as int + 1) * (2 * hi as int + 1) > 0x10_0000_0000_0000_0000) by (nonlinear_arith)
        requires
            hi == 0x4_0000_0000,
    ;
    while hi - lo > 1
        invariant
            lo < hi <= 0x4_0000_0000,
            lo == 0 || (2 * lo as int + 1) * (2 * lo as int + 1) <= q,
            lo == 0 ==> 1 <= q,
            (q as int) < (2 * hi as int + 1) * (2 * hi as int + 1),
        decreases hi - lo,
    {
        let mid: u64 = lo + (hi - lo) / 2;
        let w: u128 = 2 * mid as u128 + 1;
        assert(w * w <= 0x8_0000_0001 * 0x8_0000_0001) by (nonlinear_arith)
            requires
                w <= 0x8_0000_0001,
        ;
        if q < w * w {
            hi = mid;
        } else {
            lo = mid;
        }
    }
    assert(is_rounded_half_root(hi as int, q as int)) by {
        assert(lo + 1 == hi);
        assert(2 * hi - 1 == 2 * lo + 1);
    }
    proof {
        lemma_root_unique(hi as int, rounded_half_root(q as int), q as int);
    }
    hi
}

proof fn lemma_square_bound(d: int)
    requires
        -0x1_0000_0000 <= d <= 0x1_0000_0000,
    ensures
        0 <= d * d <= 0x1_0000_0000_0000_0000,
{
    assert(0 <= d * d <= 0x1_0000_0000_0000_0000) by (nonlinear_arith)
        requires
            -0x1_0000_0000 <= d <= 0x1_0000_0000,
    ;
}

/// Population standard deviation around the truncated mean, rounded, or
/// `DivideByZero` for an empty vector; a result past `i32::MAX` is clamped.
pub fn stdev_value(v: &Vec<i32>) -> (r: Result<i32, CellError>)
    ensures
        r == aggregate_result(FunctionType::Stdev, v@),
{
    let n = v.len();
    if n == 0 {
        return Err(CellError::DivideByZero);
    }
    let mean = mean_value(v);
    let mut s: u128 = 0;
    let mut i: usize = 0;
    while i < n
        invariant
            n == v.len(),
            i <= n,
            s == sq_dev(v@.take(i as int), mean as int),
            s <= i * 0x1_0000_0000_0000_0000,
        decreases n - i,
    {
        assert(v@.take(i as int + 1).drop_last() =~= v@.take(i as int));
        let d: i64 = v[i] as i64 - mean as i64;
        proof {
            lemma_square_bound(d as int);
        }
        let sq: u128 = (d as i128 * d as i128) as u128;
        s = s + sq;
        i += 1;
    }
    assert(v@.take(n as int) =~= v@);
    // q = floor(4 s / n), computed without forming 4 s
    let a: u128 = s / n as u128;
    let b: u128 = s % n as u128;
    let c: u128 = (4 * b) / n as u128;
    let e: u128 = (4 * b) % n as u128;
    proof {
        lemma_fundamental_div_mod(s as int, n as int);
        lemma_fundamental_div_mod(4 * b as int, n as int);
        assert(4 * (s as int) == (4 * a as int + c as int) * n as int + e as int) by (nonlinear_arith)
            requires
                s as int == n as int * a as int + b as int,
                4 * b as int == n as int * c as int + e as int,
        ;
        lemma_fundamental_div_mod_converse(4 * s as int, n as int, 4 * a as int + c as int, e as int);
        lemma_div_bounds(s as int, n as int, 0x1_0000_0000_0000_0000);
        lemma_div_bounds(4 * b as int, n as int, 4);
    }
    let q: u128 = 4 * a + c;
    let r = rounded_half_root_of(q);
    if r > i32::MAX as u64 {
        Ok(i32::MAX)
    } else {
        Ok(r as i32)
    }
}

} // verus!
