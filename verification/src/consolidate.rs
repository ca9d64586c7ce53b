//! Per-bucket consolidation: deriving one representative price per bucket
//! from the up-to-four source prices.
//!
//! Which extremum of the set sources wins is a named, overridable policy;
//! taking the maximum is the default choice of the estimation run.

use vstd::prelude::*;
use crate::grid::{Bucket, FeedSlot};

verus! {

/// Which extremum of the set source prices becomes the consolidated price.
#[derive(Clone, Copy, Debug, PartialEq, Eq, Structural)]
pub enum Extremum {
    Maximum,
    Minimum,
}

/// One optional source price folded into the running extremum.
pub open spec fn fold_extremum(policy: Extremum, acc: Option<i64>, v: Option<i64>) -> Option<i64> {
    match v {
        Option::None => acc,
        Option::Some(x) => match acc {
            Option::None => Option::Some(x),
            Option::Some(a) => match policy {
                Extremum::Maximum => if x > a {
                    Option::Some(x)
                } else {
                    Option::Some(a)
                },
                Extremum::Minimum => if x < a {
                    Option::Some(x)
                } else {
                    Option::Some(a)
                },
            },
        },
    }
}

/// The consolidated price of a bucket: the chosen extremum of its set source
/// prices, in slot order, or unset when no source is set.
pub open spec fn consolidated_of(b: Bucket, policy: Extremum) -> Option<i64> {
    fold_extremum(
        policy,
        fold_extremum(
            policy,
            fold_extremum(policy, fold_extremum(policy, Option::None, b.feed_a), b.feed_b),
            b.feed_c,
        ),
        b.feed_d,
    )
}

/// Whether at least one source slot of the bucket is set.
pub open spec fn some_source_set(b: Bucket) -> bool {
    b.feed_a is Some || b.feed_b is Some || b.feed_c is Some || b.feed_d is Some
}

fn fold_step(policy: Extremum, acc: Option<i64>, v: Option<i64>) -> (r: Option<i64>)
    ensures
        r == fold_extremum(policy, acc, v),
{
    match v {
        Option::None => acc,
        Option::Some(x) => match acc {
            Option::None => Option::Some(x),
            Option::Some(a) => match policy {
                Extremum::Maximum => if x > a {
                    Option::Some(x)
                } else {
                    Option::Some(a)
                },
                Extremum::Minimum => if x < a {
                    Option::Some(x)
                } else {
                    Option::Some(a)
                },
            },
        },
    }
}

/// Computes the consolidated price of one bucket under the given policy.
pub fn consolidate_bucket(b: &Bucket, policy: Extremum) -> (r: Option<i64>)
    ensures
        r == consolidated_of(*b, policy),
{
    let mut acc = fold_step(policy, None, b.feed_a);
    acc = fold_step(policy, acc, b.feed_b);
    acc = fold_step(policy, acc, b.feed_c);
    acc = fold_step(policy, acc, b.feed_d);
    acc
}

/// The consolidated price exists exactly when a source is set; it is one of
/// the set source prices and never leaves the band between the smallest and
/// the largest set source price, whatever the policy.
pub proof fn lemma_consolidation_bounded(b: Bucket, policy: Extremum)
    ensures
        consolidated_of(b, policy) is Some <==> some_source_set(b),
        some_source_set(b) ==> exists|s: FeedSlot| b.slot_spec(s) == consolidated_of(b, policy),
        some_source_set(b) ==> consolidated_of(b, Extremum::Minimum)->0 <= consolidated_of(
            b,
            policy,
        )->0 <= consolidated_of(b, Extremum::Maximum)->0,
{
    if some_source_set(b) {
        let r = consolidated_of(b, policy);
        if b.feed_a == r {
            assert(b.slot_spec(FeedSlot::FeedA) == r);
        } else if b.feed_b == r {
            assert(b.slot_spec(FeedSlot::FeedB) == r);
        } else if b.feed_c == r {
            assert(b.slot_spec(FeedSlot::FeedC) == r);
        } else {
            assert(b.slot_spec(FeedSlot::FeedD) == r);
        }
    }
}

} // verus!
