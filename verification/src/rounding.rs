//! Rounding timestamps down to the start of their containing period.
//!
//! Timestamps are Unix seconds (UTC). A period (bucket) is one second,
//! minute, hour or day wide; rounding truncates a timestamp to the start of
//! the period that contains it.

use vstd::prelude::*;
use vstd::arithmetic::div_mod::{
    lemma_fundamental_div_mod, lemma_fundamental_div_mod_converse, lemma_mod_multiples_basic,
    lemma_mod_bound,
};
use vstd::string::StrSliceExecFns;

verus! {

/// The width of a time bucket.
#[derive(Clone, Copy, Debug, PartialEq, Eq, Structural)]
pub enum Granularity {
    Second,
    Minute,
    Hour,
    Day,
}

impl Granularity {
    /// Bucket width in seconds.
    pub open spec fn period_len(self) -> int {
        match self {
            Granularity::Second => 1,
            Granularity::Minute => 60,
            Granularity::Hour => 3600,
            Granularity::Day => 86400,
        }
    }

    /// Bucket width in seconds.
    pub fn period_seconds(&self) -> (r: i64)
        ensures
            r == self.period_len(),
    {
        match self {
            Granularity::Second => 1,
            Granularity::Minute => 60,
            Granularity::Hour => 3600,
            Granularity::Day => 86400,
        }
    }
}

/// The granularity a period name stands for: one of `"second"`, `"minute"`,
/// `"hour"` or `"day"`; any other name falls back to hours.
pub open spec fn granularity_of_name(name: Seq<char>) -> Granularity {
    if name == "second"@ {
        Granularity::Second
    } else if name == "minute"@ {
        Granularity::Minute
    } else if name == "hour"@ {
        Granularity::Hour
    } else if name == "day"@ {
        Granularity::Day
    } else {
        Granularity::Hour
    }
}

/// A timestamp rounded down to the start of its period.
pub open spec fn round_spec(t: int, g: Granularity) -> int {
    t - t % g.period_len()
}

/// Whether two strings hold the same characters.
pub(crate) fn str_eq(s: &str, lit: &str) -> (r: bool)
    ensures
        r == (s@ == lit@),
{
    let n = s.unicode_len();
    let m = lit.unicode_len();
    if n != m {
        assert(s@ != lit@) by {
            assert(s@.len() != lit@.len());
        }
        return false;
    }
    let mut i: usize = 0;
    while i < n
        invariant
            i <= n,
            n == s@.len(),
            n == lit@.len(),
            forall|j: int| 0 <= j < i ==> s@[j] == lit@[j],
        decreases n - i,
    {
        if s.get_char(i) != lit.get_char(i) {
            return false;
        }
        i += 1;
    }
    assert(s@ =~= lit@);
    true
}

/// Maps a period name to its granularity, falling back to hours for an
/// unrecognized name.
pub fn parse_granularity(name: &str) -> (g: Granularity)
    ensures
        g == granularity_of_name(name@),
{
    if str_eq(name, "second") {
        Granularity::Second
    } else if str_eq(name, "minute") {
        Granularity::Minute
    } else if str_eq(name, "hour") {
        Granularity::Hour
    } else if str_eq(name, "day") {
        Granularity::Day
    } else {
        Granularity::Hour
    }
}

/// Rounds a timestamp down to the start of the period named by `period`
/// (`"second"`, `"minute"`, `"hour"` or `"day"`; anything else counts as
/// `"hour"`).
pub fn round_to_period(timestamp: i64, period: &str) -> (r: i64)
    requires
        i64::MIN + 86400 < timestamp,
    ensures
        r == round_spec(timestamp as int, granularity_of_name(period@)),
{
    let g = parse_granularity(period);
    round_timestamp(timestamp, g)
}

/// Rounds a timestamp down to the start of its period. The margin above
/// `i64::MIN` keeps the rounded value representable.
pub fn round_timestamp(timestamp: i64, g: Granularity) -> (r: i64)
    requires
        i64::MIN + 86400 < timestamp,
    ensures
        r == round_spec(timestamp as int, g),
        r <= timestamp,
        timestamp - g.period_len() < r,
        (r as int) % g.period_len() == 0,
{
    let p = g.period_seconds();
    proof {
        lemma_mod_bound(timestamp as int, p as int);
        lemma_round_in_period(timestamp as int, g);
    }
    if timestamp >= 0 {
        timestamp - timestamp % p
    } else {
        let neg_rem = (-timestamp) % p;
        proof {
            let tt = timestamp as int;
            let pp = p as int;
            lemma_fundamental_div_mod(-tt, pp);
            let q = (-tt) / pp;
            if neg_rem == 0 {
                assert(tt == (-q) * pp + 0) by (nonlinear_arith)
                    requires
                        -tt == q * pp,
                ;
                lemma_fundamental_div_mod_converse(tt, pp, -q, 0);
            } else {
                assert(tt == (-q - 1) * pp + (pp - neg_rem)) by (nonlinear_arith)
                    requires
                        -tt == q * pp + neg_rem,
                ;
                lemma_fundamental_div_mod_converse(tt, pp, -q - 1, pp - neg_rem);
            }
        }
        if neg_rem == 0 {
            timestamp
        } else {
            timestamp - (p - neg_rem)
        }
    }
}

/// A rounded timestamp is a multiple of the period length and lies at most
/// one period below the raw timestamp.
pub proof fn lemma_round_in_period(t: int, g: Granularity)
    ensures
        round_spec(t, g) % g.period_len() == 0,
        t - g.period_len() < round_spec(t, g) <= t,
{
    let p = g.period_len();
    lemma_fundamental_div_mod(t, p);
    lemma_mod_bound(t, p);
    lemma_mod_multiples_basic(t / p, p);
}

/// Rounding is idempotent: rounding a timestamp that is already the start of
/// a period leaves it unchanged.
pub proof fn lemma_round_idempotent(t: int, g: Granularity)
    ensures
        round_spec(round_spec(t, g), g) == round_spec(t, g),
{
    lemma_round_in_period(t, g);
}

} // verus!
