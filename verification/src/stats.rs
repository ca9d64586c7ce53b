//! Mean, variance and standard deviation over fixed-point series, and the
//! period-over-period returns.
//!
//! The estimator follows the sample convention: deviations are taken from
//! the truncated mean, the variance divides by `n` (population) or `n - 1`
//! (sample), and the volatility is the floor square root of the variance. A
//! return against a previous value of zero counts as zero, and returns are
//! clamped to the representable band — the documented guard for the
//! division-by-zero edge case.

use vstd::prelude::*;
use vstd::arithmetic::div_mod::{lemma_div_is_ordered, lemma_div_pos_is_pos};
use crate::interpolate::{tdiv, tdiv_i128};
use crate::PRICE_SCALE;

verus! {

/// Largest magnitude the estimator accepts for one sample value.
pub const VAL_MAX: i64 = 10_000_000_000_000_000;

/// Most sample values the estimator accepts in one series.
pub const N_MAX: usize = 4096;

/// Whether the variance divides by the sample size or by one less.
#[derive(Clone, Copy, Debug, PartialEq, Eq, Structural)]
pub enum Divisor {
    Population,
    Sample,
}

/// The series as mathematical integers.
pub open spec fn as_ints(s: Seq<i64>) -> Seq<int> {
    Seq::new(s.len(), |i: int| s[i] as int)
}

/// The sum of a series.
pub open spec fn sum_seq(s: Seq<int>) -> int
    decreases s.len(),
{
    if s.len() == 0 {
        0
    } else {
        sum_seq(s.drop_last()) + s.last()
    }
}

/// The mean of a nonempty series, truncated toward zero.
pub open spec fn mean_spec(s: Seq<int>) -> int {
    tdiv(sum_seq(s), s.len() as int)
}

/// The sum of squared deviations from `m`.
pub open spec fn sq_dev_sum(s: Seq<int>, m: int) -> int
    decreases s.len(),
{
    if s.len() == 0 {
        0
    } else {
        sq_dev_sum(s.drop_last(), m) + (s.last() - m) * (s.last() - m)
    }
}

/// What the variance divides by.
pub open spec fn divisor_count(n: int, d: Divisor) -> int {
    match d {
        Divisor::Population => n,
        Divisor::Sample => n - 1,
    }
}

/// The variance: the summed squared deviations from the mean over the
/// divisor; zero when the divisor is zero, as a single point has no spread.
pub open spec fn variance_spec(s: Seq<int>, d: Divisor) -> int {
    let c = divisor_count(s.len() as int, d);
    if c <= 0 {
        0
    } else {
        sq_dev_sum(s, mean_spec(s)) / c
    }
}

/// The floor of the square root of a natural number.
pub open spec fn sqrt_floor(x: nat) -> nat
    decreases x,
{
    if x == 0 {
        0
    } else {
        let r = sqrt_floor((x - 1) as nat);
        if (r + 1) * (r + 1) <= x {
            r + 1
        } else {
            r
        }
    }
}

/// The volatility of a series: the floor square root of its variance.
pub open spec fn volatility_spec(s: Seq<int>, d: Divisor) -> int {
    sqrt_floor(variance_spec(s, d) as nat) as int
}

/// The period-over-period return of `cur` against `prev`, as a fixed-point
/// fraction of `prev`; zero when `prev` is zero, and clamped to the
/// representable band.
pub open spec fn return_of(prev: int, cur: int) -> int {
    if prev == 0 {
        0
    } else {
        let r = tdiv((cur - prev) * PRICE_SCALE, prev);
        if r > VAL_MAX {
            VAL_MAX as int
        } else if r < -VAL_MAX {
            -VAL_MAX as int
        } else {
            r
        }
    }
}

/// The returns between chronologically adjacent values of a series.
pub open spec fn returns_spec(s: Seq<int>) -> Seq<int> {
    if s.len() == 0 {
        Seq::empty()
    } else {
        Seq::new((s.len() - 1) as nat, |i: int| return_of(s[i], s[i + 1]))
    }
}

/// `sqrt_floor` really is the floor of the square root.
pub proof fn lemma_sqrt_floor_bounds(x: nat)
    ensures
        sqrt_floor(x) * sqrt_floor(x) <= x,
        x < (sqrt_floor(x) + 1) * (sqrt_floor(x) + 1),
    decreases x,
{
    if x > 0 {
        lemma_sqrt_floor_bounds((x - 1) as nat);
        let r = sqrt_floor((x - 1) as nat);
        let s = sqrt_floor(x);
        assert(s == if (r + 1) * (r + 1) <= x {
            r + 1
        } else {
            r
        });
        if (r + 1) * (r + 1) <= x {
            assert(x <= (r + 1) * (r + 1));
            assert(s * s <= x) by (nonlinear_arith)
                requires
                    s == r + 1,
                    (r + 1) * (r + 1) <= x,
            ;
            assert(x < (s + 1) * (s + 1)) by (nonlinear_arith)
                requires
                    s == r + 1,
                    r >= 0,
                    x <= (r + 1) * (r + 1),
            ;
        } else {
            assert(s * s <= x) by (nonlinear_arith)
                requires
                    s == r,
                    r * r <= x - 1,
            ;
            assert(x < (s + 1) * (s + 1)) by (nonlinear_arith)
                requires
                    s == r,
                    !((r + 1) * (r + 1) <= x),
            ;
        }
    } else {
        assert(sqrt_floor(0nat) == 0);
        assert(0 * 0 <= 0 && 0 < (0 + 1) * (0 + 1)) by (nonlinear_arith);
    }
}

/// Any number whose square brackets `x` from below and above is the floor
/// square root of `x`.
pub proof fn lemma_sqrt_floor_unique(x: nat, r: nat)
    requires
        r * r <= x,
        x < (r + 1) * (r + 1),
    ensures
        sqrt_floor(x) == r,
{
    let s = sqrt_floor(x);
    lemma_sqrt_floor_bounds(x);
    if s < r {
        assert((s + 1) * (s + 1) <= r * r) by (nonlinear_arith)
            requires
                0 <= s,
                s + 1 <= r,
        ;
    }
    if r < s {
        assert((r + 1) * (r + 1) <= s * s) by (nonlinear_arith)
            requires
                0 <= r,
                r + 1 <= s,
        ;
    }
}

/// The sum of a series is bounded by its length times a bound on its values.
pub proof fn lemma_sum_bounds(s: Seq<int>, b: int)
    requires
        forall|i: int| 0 <= i < s.len() ==> -b <= #[trigger] s[i] <= b,
        0 <= b,
    ensures
        -((s.len() as int) * b) <= sum_seq(s) <= (s.len() as int) * b,
    decreases s.len(),
{
    if s.len() > 0 {
        let dl = s.drop_last();
        assert(forall|i: int| 0 <= i < dl.len() ==> -b <= #[trigger] dl[i] <= b);
        assert(-b <= s[s.len() - 1] <= b);
        lemma_sum_bounds(dl, b);
        assert((s.len() as int) * b == (dl.len() as int) * b + b) by (nonlinear_arith)
            requires
                s.len() == dl.len() + 1,
        ;
    }
}

/// A quotient of a sum of `n` values, each within a band, stays within the
/// band.
pub proof fn lemma_tdiv_bound(a: int, n: int, b: int)
    requires
        0 < n,
        0 <= b,
        -(n * b) <= a <= n * b,
    ensures
        -b <= tdiv(a, n) <= b,
{
    assert(n * b == b * n) by (nonlinear_arith);
    if a >= 0 {
        lemma_div_pos_is_pos(a, n);
        lemma_div_is_ordered(a, b * n, n);
        vstd::arithmetic::div_mod::lemma_div_by_multiple(b, n);
    } else {
        lemma_div_pos_is_pos(-a, n);
        lemma_div_is_ordered(-a, b * n, n);
        vstd::arithmetic::div_mod::lemma_div_by_multiple(b, n);
    }
}

/// The summed squared deviations are never negative.
pub proof fn lemma_sq_dev_sum_nonneg(s: Seq<int>, m: int)
    ensures
        0 <= sq_dev_sum(s, m),
    decreases s.len(),
{
    if s.len() > 0 {
        lemma_sq_dev_sum_nonneg(s.drop_last(), m);
        let d = s.last() - m;
        assert(0 <= d * d) by (nonlinear_arith);
    }
}

/// The variance is never negative.
pub proof fn lemma_variance_nonneg(s: Seq<int>, d: Divisor)
    ensures
        0 <= variance_spec(s, d),
{
    let c = divisor_count(s.len() as int, d);
    if c > 0 {
        lemma_sq_dev_sum_nonneg(s, mean_spec(s));
        lemma_div_pos_is_pos(sq_dev_sum(s, mean_spec(s)), c);
    }
}

/// The sum of an all-zero series is zero.
pub proof fn lemma_sum_zero(s: Seq<int>)
    requires
        forall|i: int| 0 <= i < s.len() ==> s[i] == 0,
    ensures
        sum_seq(s) == 0,
    decreases s.len(),
{
    if s.len() > 0 {
        lemma_sum_zero(s.drop_last());
    }
}

/// An all-zero series has zero squared deviation from a zero mean.
pub proof fn lemma_sq_dev_zero(s: Seq<int>)
    requires
        forall|i: int| 0 <= i < s.len() ==> s[i] == 0,
    ensures
        sq_dev_sum(s, 0) == 0,
    decreases s.len(),
{
    if s.len() > 0 {
        lemma_sq_dev_zero(s.drop_last());
        let v = s.last();
        assert(v == 0);
        assert((v - 0) * (v - 0) == 0) by (nonlinear_arith)
            requires
                v == 0,
        ;
    }
}

/// An all-zero series has a volatility of exactly zero, under either
/// divisor.
pub proof fn lemma_volatility_all_zero(s: Seq<int>, d: Divisor)
    requires
        forall|i: int| 0 <= i < s.len() ==> s[i] == 0,
    ensures
        volatility_spec(s, d) == 0,
{
    lemma_sum_zero(s);
    let n = s.len() as int;
    if n > 0 {
        vstd::arithmetic::div_mod::lemma_div_of0(n);
        assert(mean_spec(s) == 0);
    }
    lemma_sq_dev_zero(s);
    let c = divisor_count(n, d);
    if c > 0 {
        vstd::arithmetic::div_mod::lemma_div_of0(c);
    }
    assert(variance_spec(s, d) == 0);
    assert(sqrt_floor(0nat) == 0);
}

fn sum_i128(values: &Vec<i64>) -> (r: i128)
    requires
        values@.len() <= N_MAX,
        forall|i: int| 0 <= i < values@.len() ==> -VAL_MAX <= #[trigger] values@[i] <= VAL_MAX,
    ensures
        r == sum_seq(as_ints(values@)),
        -(values@.len() as int) * (VAL_MAX as int) <= r <= (values@.len() as int) * (
        VAL_MAX as int),
{
    let n = values.len();
    let mut sum: i128 = 0;
    let mut i: usize = 0;
    while i < n
        invariant
            i <= n,
            n == values@.len(),
            n <= N_MAX,
            forall|k: int| 0 <= k < values@.len() ==> -VAL_MAX <= #[trigger] values@[k] <= VAL_MAX,
            sum == sum_seq(as_ints(values@).subrange(0, i as int)),
            -(i as int) * (VAL_MAX as int) <= sum <= (i as int) * (VAL_MAX as int),
        decreases n - i,
    {
        proof {
            assert(as_ints(values@).subrange(0, i + 1).drop_last() =~= as_ints(
                values@,
            ).subrange(0, i as int));
        }
        sum = sum + values[i] as i128;
        i += 1;
    }
    proof {
        assert(as_ints(values@).subrange(0, n as int) =~= as_ints(values@));
    }
    sum
}

fn mean_exec(values: &Vec<i64>) -> (r: i64)
    requires
        1 <= values@.len() <= N_MAX,
        forall|i: int| 0 <= i < values@.len() ==> -VAL_MAX <= #[trigger] values@[i] <= VAL_MAX,
    ensures
        r == mean_spec(as_ints(values@)),
        -VAL_MAX <= r <= VAL_MAX,
{
    let sum = sum_i128(values);
    let n = values.len();
    proof {
        lemma_tdiv_bound(sum as int, n as int, VAL_MAX as int);
    }
    let m = tdiv_i128(sum, n as i128);
    m as i64
}

fn sq_dev_sum_exec(values: &Vec<i64>, m: i64) -> (r: i128)
    requires
        values@.len() <= N_MAX,
        forall|i: int| 0 <= i < values@.len() ==> -VAL_MAX <= #[trigger] values@[i] <= VAL_MAX,
        -VAL_MAX <= m <= VAL_MAX,
    ensures
        r == sq_dev_sum(as_ints(values@), m as int),
        0 <= r <= (values@.len() as int) * 400_000_000_000_000_000_000_000_000_000_000,
{
    let n = values.len();
    let mut sum: i128 = 0;
    let mut i: usize = 0;
    while i < n
        invariant
            i <= n,
            n == values@.len(),
            n <= N_MAX,
            forall|k: int| 0 <= k < values@.len() ==> -VAL_MAX <= #[trigger] values@[k] <= VAL_MAX,
            -VAL_MAX <= m <= VAL_MAX,
            sum == sq_dev_sum(as_ints(values@).subrange(0, i as int), m as int),
            0 <= sum <= (i as int) * 400_000_000_000_000_000_000_000_000_000_000,
        decreases n - i,
    {
        proof {
            assert(as_ints(values@).subrange(0, i + 1).drop_last() =~= as_ints(
                values@,
            ).subrange(0, i as int));
        }
        let dev: i128 = values[i] as i128 - m as i128;
        proof {
            assert(0 <= dev * dev <= 400_000_000_000_000_000_000_000_000_000_000)
                by (nonlinear_arith)
                requires
                    -20_000_000_000_000_000 <= dev <= 20_000_000_000_000_000,
            ;
        }
        sum = sum + dev * dev;
        i += 1;
    }
    proof {
        assert(as_ints(values@).subrange(0, n as int) =~= as_ints(values@));
    }
    sum
}

fn isqrt_u128(x: u128) -> (r: u128)
    ensures
        (r as int) * (r as int) <= x as int,
        (x as int) < (r as int + 1) * (r as int + 1),
{
    let mut lo: u128 = 0;
    let mut hi: u128 = 0x1_0000_0000_0000_0000;
    proof {
        assert((hi as int) * (hi as int) > u128::MAX as int) by (nonlinear_arith)
            requires
                hi == 0x1_0000_0000_0000_0000u128,
        ;
    }
    while hi - lo > 1
        invariant
            lo < hi <= 0x1_0000_0000_0000_0000,
            (lo as int) * (lo as int) <= x as int,
            (x as int) < (hi as int) * (hi as int),
        decreases hi - lo,
    {
        let mid = lo + (hi - lo) / 2;
        proof {
            assert((mid as int) * (mid as int) <= (0xFFFF_FFFF_FFFF_FFFFu128 as int)
                * (0xFFFF_FFFF_FFFF_FFFFu128 as int)) by (nonlinear_arith)
                requires
                    0 <= mid <= 0xFFFF_FFFF_FFFF_FFFFu128,
            ;
            assert((0xFFFF_FFFF_FFFF_FFFFu128 as int) * (0xFFFF_FFFF_FFFF_FFFFu128 as int)
                <= u128::MAX as int) by (nonlinear_arith);
        }
        if mid * mid <= x {
            lo = mid;
        } else {
            hi = mid;
        }
    }
    lo
}

/// The volatility of a series of sample values: the floor square root of
/// the variance under the given divisor; nothing when the series is empty.
pub fn volatility_of(values: &Vec<i64>, d: Divisor) -> (r: Option<i64>)
    requires
        values@.len() <= N_MAX,
        forall|i: int| 0 <= i < values@.len() ==> -VAL_MAX <= #[trigger] values@[i] <= VAL_MAX,
    ensures
        r is Some <==> values@.len() >= 1,
        r is Some ==> r->0 == volatility_spec(as_ints(values@), d),
        r is Some ==> 0 <= r->0,
{
    let n = values.len();
    if n == 0 {
        return None;
    }
    let m = mean_exec(values);
    let sumsq = sq_dev_sum_exec(values, m);
    let c: usize = match d {
        Divisor::Population => n,
        Divisor::Sample => n - 1,
    };
    let var: i128 = if c == 0 {
        0
    } else {
        sumsq / c as i128
    };
    proof {
        if c > 0 {
            lemma_div_pos_is_pos(sumsq as int, c as int);
            lemma_div_is_ordered(
                sumsq as int,
                (N_MAX as int) * 400_000_000_000_000_000_000_000_000_000_000,
                c as int,
            );
            assert((N_MAX as int) * 400_000_000_000_000_000_000_000_000_000_000
                / (c as int) <= (N_MAX as int) * 400_000_000_000_000_000_000_000_000_000_000) by {
                vstd::arithmetic::div_mod::lemma_div_nonincreasing(
                    (N_MAX as int) * 400_000_000_000_000_000_000_000_000_000_000,
                    c as int,
                );
            }
        }
        assert(var == variance_spec(as_ints(values@), d));
    }
    let root = isqrt_u128(var as u128);
    proof {
        lemma_sqrt_floor_unique((var as u128) as nat, root as nat);
        assert(root <= 1_280_000_000_000_000_000u128) by (nonlinear_arith)
            requires
                (root as int) * (root as int) <= 1_638_400_000_000_000_000_000_000_000_000_000_000,
                root >= 0,
        ;
    }
    Some(root as i64)
}

/// The volatility of a series of price levels, using the population divisor.
pub fn calculate_volatility(values: &Vec<i64>) -> (r: Option<i64>)
    requires
        values@.len() <= N_MAX,
        forall|i: int| 0 <= i < values@.len() ==> -VAL_MAX <= #[trigger] values@[i] <= VAL_MAX,
    ensures
        r is Some <==> values@.len() >= 1,
        r is Some ==> r->0 == volatility_spec(as_ints(values@), Divisor::Population),
        r is Some ==> 0 <= r->0,
{
    volatility_of(values, Divisor::Population)
}

/// The period-over-period returns between chronologically adjacent values:
/// one fewer than the values, each the clamped fixed-point ratio of the
/// difference to the earlier value, and zero where the earlier value is
/// zero.
pub fn returns_of(values: &Vec<i64>) -> (r: Vec<i64>)
    requires
        forall|i: int| 0 <= i < values@.len() ==> 0 <= #[trigger] values@[i] <= VAL_MAX,
    ensures
        as_ints(r@) =~= returns_spec(as_ints(values@)),
        r@.len() == if values@.len() == 0 {
            0int
        } else {
            values@.len() - 1
        },
        forall|i: int| 0 <= i < r@.len() ==> -VAL_MAX <= #[trigger] r@[i] <= VAL_MAX,
{
    let n = values.len();
    let mut out: Vec<i64> = Vec::new();
    if n == 0 {
        return out;
    }
    let mut i: usize = 1;
    while i < n
        invariant
            1 <= i <= n,
            n == values@.len(),
            out@.len() == i - 1,
            forall|k: int| 0 <= k < values@.len() ==> 0 <= #[trigger] values@[k] <= VAL_MAX,
            forall|k: int|
                0 <= k < i - 1 ==> out@[k] == return_of(values@[k] as int, values@[k + 1] as int),
            forall|k: int| 0 <= k < i - 1 ==> -VAL_MAX <= #[trigger] out@[k] <= VAL_MAX,
        decreases n - i,
    {
        let prev = values[i - 1];
        let cur = values[i];
        let x: i64 = if prev == 0 {
            0
        } else {
            proof {
                assert(((cur - prev) as int) * (PRICE_SCALE as int)
                    > i128::MIN) by (nonlinear_arith)
                    requires
                        -10_000_000_000_000_000 <= ((cur - prev) as int) <= 10_000_000_000_000_000,
                        PRICE_SCALE == 1_000_000_000i64,
                ;
            }
            let num: i128 = (cur as i128 - prev as i128) * PRICE_SCALE as i128;
            let t = tdiv_i128(num, prev as i128);
            if t > VAL_MAX as i128 {
                VAL_MAX
            } else if t < -(VAL_MAX as i128) {
                -VAL_MAX
            } else {
                t as i64
            }
        };
        out.push(x);
        i += 1;
    }
    proof {
        assert(as_ints(out@) =~= returns_spec(as_ints(values@)));
    }
    out
}

} // verus!
