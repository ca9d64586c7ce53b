//! Gap filling over the chronologically ordered consolidated series.
//!
//! A leading run of unset buckets is back-filled with the first known value,
//! an interior run is filled by linear interpolation between its two
//! bounding values, and a trailing run is held flat at the last known value.
//! A series with no known value at all fills with zero.

use vstd::prelude::*;
use vstd::arithmetic::div_mod::{
    lemma_div_is_ordered, lemma_div_multiples_vanish, lemma_div_pos_is_pos,
};
use crate::grid::{PRICE_MAX, price_opt_valid};

verus! {

/// Truncating division: the quotient rounded toward zero, as machine
/// division computes it.
pub open spec fn tdiv(a: int, b: int) -> int {
    if a >= 0 {
        a / b
    } else {
        -((-a) / b)
    }
}

/// The greatest index at or below `i` holding a set value, or -1 when every
/// value at or below `i` is unset.
pub open spec fn prev_set(s: Seq<Option<i64>>, i: int) -> int
    decreases i + 1,
{
    if i < 0 {
        -1
    } else if s[i] is Some {
        i
    } else {
        prev_set(s, i - 1)
    }
}

/// The least index at or above `i` holding a set value, or `s.len()` when
/// every value at or above `i` is unset.
pub open spec fn next_set(s: Seq<Option<i64>>, i: int) -> int
    decreases s.len() - i,
{
    if i >= s.len() {
        s.len() as int
    } else if s[i] is Some {
        i
    } else {
        next_set(s, i + 1)
    }
}

/// What the gap-filled series holds at `i`: the value itself where set; the
/// first known value for a leading gap; linear interpolation between the two
/// bounding values for an interior gap; the last known value, held flat, for
/// a trailing gap; zero when nothing is set at all.
pub open spec fn fill_at(s: Seq<Option<i64>>, i: int) -> int {
    if s[i] is Some {
        s[i]->0 as int
    } else {
        let p = prev_set(s, i);
        let q = next_set(s, i);
        if p < 0 && q == s.len() {
            0
        } else if p < 0 {
            s[q]->0 as int
        } else if q == s.len() {
            s[p]->0 as int
        } else {
            s[p]->0 + tdiv((s[q]->0 - s[p]->0) * (i - p), q - p)
        }
    }
}

/// The gap-filled series.
pub open spec fn fill_spec(s: Seq<Option<i64>>) -> Seq<int> {
    Seq::new(s.len(), |i: int| fill_at(s, i))
}

/// `prev_set` points at a set value, and nothing between it and `i` is set.
pub proof fn lemma_prev_set_props(s: Seq<Option<i64>>, i: int)
    requires
        0 <= i < s.len(),
    ensures
        -1 <= prev_set(s, i) <= i,
        prev_set(s, i) >= 0 ==> s[prev_set(s, i)] is Some,
        forall|j: int| prev_set(s, i) < j <= i ==> s[j] is None,
    decreases i,
{
    if s[i] is None {
        if i > 0 {
            lemma_prev_set_props(s, i - 1);
        } else {
            assert(prev_set(s, 0) == prev_set(s, -1));
            assert(prev_set(s, -1) == -1);
        }
    }
}

/// `next_set` points at a set value, and nothing between `i` and it is set.
pub proof fn lemma_next_set_props(s: Seq<Option<i64>>, i: int)
    requires
        0 <= i < s.len(),
    ensures
        i <= next_set(s, i) <= s.len(),
        next_set(s, i) < s.len() ==> s[next_set(s, i)] is Some,
        forall|j: int| i <= j < next_set(s, i) ==> s[j] is None,
    decreases s.len() - i,
{
    if s[i] is None {
        if i < s.len() - 1 {
            lemma_next_set_props(s, i + 1);
        } else {
            assert(next_set(s, i) == next_set(s, s.len() as int));
            assert(next_set(s, s.len() as int) == s.len());
        }
    }
}

/// The greatest set index at or below `i` is what `prev_set` returns.
pub proof fn lemma_prev_set_unique(s: Seq<Option<i64>>, i: int, p: int)
    requires
        0 <= p <= i < s.len(),
        s[p] is Some,
        forall|j: int| p < j <= i ==> s[j] is None,
    ensures
        prev_set(s, i) == p,
    decreases i,
{
    if i > p {
        lemma_prev_set_unique(s, i - 1, p);
    }
}

/// The least set index at or above `i` is what `next_set` returns.
pub proof fn lemma_next_set_unique(s: Seq<Option<i64>>, i: int, q: int)
    requires
        0 <= i <= q < s.len(),
        s[q] is Some,
        forall|j: int| i <= j < q ==> s[j] is None,
    ensures
        next_set(s, i) == q,
    decreases q - i,
{
    if i < q {
        lemma_next_set_unique(s, i + 1, q);
    }
}

/// When nothing at or above `i` is set, `next_set` runs off the end.
pub proof fn lemma_next_set_none(s: Seq<Option<i64>>, i: int)
    requires
        0 <= i <= s.len(),
        forall|j: int| i <= j < s.len() ==> s[j] is None,
    ensures
        next_set(s, i) == s.len(),
    decreases s.len() - i,
{
    if i < s.len() {
        lemma_next_set_none(s, i + 1);
    }
}

/// An interpolated point never leaves the band between its two endpoints.
pub proof fn lemma_interp_bounds(v0: int, v1: int, k: int, n: int)
    requires
        0 < k < n,
    ensures
        v0 <= v1 ==> v0 <= v0 + tdiv((v1 - v0) * k, n) <= v1,
        v1 <= v0 ==> v1 <= v0 + tdiv((v1 - v0) * k, n) <= v0,
{
    let d = v1 - v0;
    if d >= 0 {
        assert(0 <= d * k <= d * n) by (nonlinear_arith)
            requires
                d >= 0,
                0 < k <= n,
        ;
        lemma_div_pos_is_pos(d * k, n);
        lemma_div_is_ordered(d * k, d * n, n);
        assert(d * n == n * d) by (nonlinear_arith);
        lemma_div_multiples_vanish(d, n);
    } else {
        let e = -d;
        assert(0 <= e * k <= e * n) by (nonlinear_arith)
            requires
                e >= 0,
                0 < k <= n,
        ;
        assert(d * k == -(e * k)) by (nonlinear_arith)
            requires
                e == -d,
        ;
        lemma_div_pos_is_pos(e * k, n);
        lemma_div_is_ordered(e * k, e * n, n);
        assert(e * n == n * e) by (nonlinear_arith);
        lemma_div_multiples_vanish(e, n);
    }
}

/// Interpolated points move monotonically from the left endpoint toward the
/// right endpoint.
pub proof fn lemma_interp_monotonic(v0: int, v1: int, k1: int, k2: int, n: int)
    requires
        0 < k1 <= k2 < n,
    ensures
        v0 <= v1 ==> v0 + tdiv((v1 - v0) * k1, n) <= v0 + tdiv((v1 - v0) * k2, n),
        v1 <= v0 ==> v0 + tdiv((v1 - v0) * k2, n) <= v0 + tdiv((v1 - v0) * k1, n),
{
    let d = v1 - v0;
    if d == 0 {
        assert(d * k1 == 0 && d * k2 == 0) by (nonlinear_arith)
            requires
                d == 0,
        ;
        vstd::arithmetic::div_mod::lemma_div_of0(n);
    } else if d > 0 {
        assert(0 <= d * k1 <= d * k2) by (nonlinear_arith)
            requires
                d >= 0,
                0 < k1 <= k2,
        ;
        lemma_div_pos_is_pos(d * k1, n);
        lemma_div_is_ordered(d * k1, d * k2, n);
    } else {
        let e = -d;
        assert(0 <= e * k1 <= e * k2) by (nonlinear_arith)
            requires
                e >= 0,
                0 < k1 <= k2,
        ;
        assert(d * k1 == -(e * k1) && d * k2 == -(e * k2)) by (nonlinear_arith)
            requires
                e == -d,
        ;
        lemma_div_pos_is_pos(e * k1, n);
        lemma_div_is_ordered(e * k1, e * k2, n);
    }
}

pub(crate) fn tdiv_i128(a: i128, b: i128) -> (r: i128)
    requires
        0 < b,
        i128::MIN < a,
    ensures
        r == tdiv(a as int, b as int),
{
    if a >= 0 {
        a / b
    } else {
        proof {
            lemma_div_pos_is_pos(-(a as int), b as int);
            lemma_div_is_ordered(0, -(a as int), b as int);
            lemma_div_is_ordered(-(a as int), -(i128::MIN + 1), b as int);
            assert((-(i128::MIN + 1)) / (b as int) <= -(i128::MIN + 1)) by {
                vstd::arithmetic::div_mod::lemma_div_nonincreasing(
                    -(i128::MIN + 1),
                    b as int,
                );
            }
        }
        -((-a) / b)
    }
}

fn find_prev_set(values: &Vec<Option<i64>>, i: usize) -> (r: Option<usize>)
    requires
        i < values@.len(),
    ensures
        r is Some ==> r->0 == prev_set(values@, i as int),
        r is None ==> prev_set(values@, i as int) == -1,
{
    let mut j = i;
    loop
        invariant
            j <= i < values@.len(),
            prev_set(values@, i as int) == prev_set(values@, j as int),
        decreases j,
    {
        if values[j].is_some() {
            return Some(j);
        }
        if j == 0 {
            proof {
                assert(prev_set(values@, 0) == prev_set(values@, -1));
                assert(prev_set(values@, -1) == -1);
            }
            return None;
        }
        j -= 1;
    }
}

fn find_next_set(values: &Vec<Option<i64>>, i: usize) -> (r: Option<usize>)
    requires
        i < values@.len(),
    ensures
        r is Some ==> r->0 == next_set(values@, i as int) && r->0 < values@.len(),
        r is None ==> next_set(values@, i as int) == values@.len(),
{
    let n = values.len();
    let mut j = i;
    while j < n
        invariant
            i <= j <= n,
            n == values@.len(),
            next_set(values@, i as int) == next_set(values@, j as int),
        decreases n - j,
    {
        if values[j].is_some() {
            return Some(j);
        }
        j += 1;
    }
    None
}

/// Fills every unset position of the series: a leading gap back-fills with
/// the first known value, an interior gap interpolates linearly between its
/// two bounding values, a trailing gap holds the last known value flat, and
/// an all-unset series fills with zero.
pub fn fill_series(values: &Vec<Option<i64>>) -> (r: Vec<i64>)
    requires
        forall|i: int| 0 <= i < values@.len() ==> price_opt_valid(#[trigger] values@[i]),
    ensures
        r@.len() == values@.len(),
        forall|i: int| 0 <= i < r@.len() ==> r@[i] == fill_at(values@, i),
        forall|i: int| 0 <= i < r@.len() ==> 0 <= #[trigger] r@[i] <= PRICE_MAX,
{
    let n = values.len();
    let mut out: Vec<i64> = Vec::new();
    let mut i: usize = 0;
    while i < n
        invariant
            i <= n,
            n == values@.len(),
            out@.len() == i,
            forall|k: int| 0 <= k < values@.len() ==> price_opt_valid(#[trigger] values@[k]),
            forall|k: int| 0 <= k < i ==> out@[k] == fill_at(values@, k),
            forall|k: int| 0 <= k < i ==> 0 <= #[trigger] out@[k] <= PRICE_MAX,
        decreases n - i,
    {
        let x: i64 = match values[i] {
            Some(v) => v,
            None => {
                proof {
                    lemma_prev_set_props(values@, i as int);
                    lemma_next_set_props(values@, i as int);
                }
                let po = find_prev_set(values, i);
                let qo = find_next_set(values, i);
                match (po, qo) {
                    (None, None) => 0,
                    (None, Some(q)) => values[q].unwrap(),
                    (Some(p), None) => values[p].unwrap(),
                    (Some(p), Some(q)) => {
                        let vp = values[p].unwrap();
                        let vq = values[q].unwrap();
                        proof {
                            lemma_interp_bounds(
                                vp as int,
                                vq as int,
                                i - p,
                                q - p,
                            );
                            let d: int = vq - vp;
                            let m: int = (i - p) as int;
                            assert(-0x4000_0000_0000_0000_0000_0000_0000_0000 < d * m
                                < 0x4000_0000_0000_0000_0000_0000_0000_0000) by (nonlinear_arith)
                                requires
                                    -1_000_000_000_000_000 <= d <= 1_000_000_000_000_000,
                                    0 < m < 0x1_0000_0000_0000_0000,
                            ;
                        }
                        let num: i128 = (vq as i128 - vp as i128) * ((i - p) as i128);
                        let den: i128 = (q - p) as i128;
                        let t = tdiv_i128(num, den);
                        (vp as i128 + t) as i64
                    },
                }
            },
        };
        out.push(x);
        i += 1;
    }
    out
}

/// A trailing gap fills flat at the last known value.
pub proof fn lemma_trailing_gap_flat(s: Seq<Option<i64>>, p: int)
    requires
        0 <= p < s.len(),
        s[p] is Some,
        forall|j: int| p < j < s.len() ==> s[j] is None,
    ensures
        forall|k: int| p < k < s.len() ==> fill_spec(s)[k] == s[p]->0,
{
    assert forall|k: int| p < k < s.len() implies fill_spec(s)[k] == s[p]->0 by {
        lemma_prev_set_unique(s, k, p);
        lemma_next_set_none(s, k);
    }
}

/// Over a single interior gap bounded by two known values, each filled point
/// takes the linear-interpolation value for its position, and the filled
/// points run monotonically from the left value toward the right one.
pub proof fn lemma_gap_fill_linear(s: Seq<Option<i64>>, p: int, q: int)
    requires
        0 <= p < q < s.len(),
        s[p] is Some,
        s[q] is Some,
        forall|j: int| p < j < q ==> s[j] is None,
    ensures
        forall|k: int|
            p < k < q ==> fill_spec(s)[k] == s[p]->0 + tdiv(
                (s[q]->0 - s[p]->0) * (k - p),
                q - p,
            ),
        forall|k1: int, k2: int|
            p < k1 <= k2 < q && s[p]->0 <= s[q]->0 ==> fill_spec(s)[k1] <= fill_spec(s)[k2],
        forall|k1: int, k2: int|
            p < k1 <= k2 < q && s[q]->0 <= s[p]->0 ==> fill_spec(s)[k2] <= fill_spec(s)[k1],
        forall|k: int|
            p < k < q && s[p]->0 <= s[q]->0 ==> s[p]->0 <= #[trigger] fill_spec(s)[k] <= s[q]->0,
        forall|k: int|
            p < k < q && s[q]->0 <= s[p]->0 ==> s[q]->0 <= #[trigger] fill_spec(s)[k] <= s[p]->0,
{
    assert forall|k: int| p < k < q implies fill_spec(s)[k] == s[p]->0 + tdiv(
        (s[q]->0 - s[p]->0) * (k - p),
        q - p,
    ) by {
        lemma_prev_set_unique(s, k, p);
        lemma_next_set_unique(s, k, q);
    }
    assert forall|k1: int, k2: int|
        p < k1 <= k2 < q && s[p]->0 <= s[q]->0 implies fill_spec(s)[k1] <= fill_spec(s)[k2] by {
        lemma_interp_monotonic(s[p]->0 as int, s[q]->0 as int, k1 - p, k2 - p, q - p);
    }
    assert forall|k1: int, k2: int|
        p < k1 <= k2 < q && s[q]->0 <= s[p]->0 implies fill_spec(s)[k2] <= fill_spec(s)[k1] by {
        lemma_interp_monotonic(s[p]->0 as int, s[q]->0 as int, k1 - p, k2 - p, q - p);
    }
    assert forall|k: int|
        p < k < q && s[p]->0 <= s[q]->0 implies s[p]->0 <= #[trigger] fill_spec(s)[k] <= s[q]->0 by {
        lemma_interp_bounds(s[p]->0 as int, s[q]->0 as int, k - p, q - p);
    }
    assert forall|k: int|
        p < k < q && s[q]->0 <= s[p]->0 implies s[q]->0 <= #[trigger] fill_spec(s)[k] <= s[p]->0 by {
        lemma_interp_bounds(s[p]->0 as int, s[q]->0 as int, k - p, q - p);
    }
}

/// A series with no set value at all fills entirely with zero.
pub proof fn lemma_all_unset_fill_zero(s: Seq<Option<i64>>)
    requires
        forall|i: int| 0 <= i < s.len() ==> s[i] is None,
    ensures
        forall|i: int| 0 <= i < s.len() ==> fill_spec(s)[i] == 0,
{
    assert forall|i: int| 0 <= i < s.len() implies fill_spec(s)[i] == 0 by {
        lemma_prev_set_props(s, i);
        lemma_next_set_none(s, i);
        if prev_set(s, i) >= 0 {
            assert(s[prev_set(s, i)] is Some);
        }
    }
}

} // verus!
