//! The full estimation run over a merged grid: prune to the configured
//! window, consolidate each bucket, fill gaps, write the completed series
//! back into the grid, and estimate the volatility.
//!
//! Which series the estimator uses (levels or returns) and which divisor the
//! variance takes are run configuration; the run of the program that ships
//! with this library estimates over returns with the sample divisor.

use vstd::prelude::*;
use crate::grid::{Bucket, Grid, PRICE_MAX, price_opt_valid, FeedSlot};
use crate::consolidate::{Extremum, consolidated_of, consolidate_bucket, some_source_set,
    lemma_consolidation_bounded};
use crate::interpolate::{fill_spec, fill_series, lemma_all_unset_fill_zero};
use crate::stats::{Divisor, volatility_spec, returns_spec, as_ints, volatility_of, returns_of,
    lemma_volatility_all_zero, N_MAX};

verus! {

/// Which series the estimator runs on: the consolidated price levels
/// themselves, or their period-over-period returns.
#[derive(Clone, Copy, Debug, PartialEq, Eq, Structural)]
pub enum EstimatorBase {
    Levels,
    Returns,
}

/// How the run estimates volatility.
#[derive(Clone, Copy, Debug, PartialEq, Eq, Structural)]
pub struct EstimatorConfig {
    pub base: EstimatorBase,
    pub divisor: Divisor,
}

/// The grid kept to its most recent `n` buckets.
pub open spec fn pruned_spec(s: Seq<(i64, Bucket)>, n: int) -> Seq<(i64, Bucket)> {
    if s.len() > n {
        s.subrange(s.len() - n, s.len() as int)
    } else {
        s
    }
}

/// The per-bucket consolidated prices of a grid, in chronological order.
pub open spec fn consolidated_series(s: Seq<(i64, Bucket)>, policy: Extremum) -> Seq<Option<i64>> {
    Seq::new(s.len(), |i: int| consolidated_of(s[i].1, policy))
}

/// The consolidated series with every gap filled.
pub open spec fn filled_series(s: Seq<(i64, Bucket)>, policy: Extremum) -> Seq<int> {
    fill_spec(consolidated_series(s, policy))
}

/// The grid after the run: every bucket's consolidated field holds its
/// filled value.
pub open spec fn written_back(s: Seq<(i64, Bucket)>, policy: Extremum) -> Seq<(i64, Bucket)> {
    Seq::new(
        s.len(),
        |i: int| (s[i].0, s[i].1.with_consolidated_spec(Some(filled_series(s, policy)[i] as i64))),
    )
}

/// The series the estimator samples.
pub open spec fn sample_spec(levels: Seq<int>, base: EstimatorBase) -> Seq<int> {
    match base {
        EstimatorBase::Levels => levels,
        EstimatorBase::Returns => returns_spec(levels),
    }
}

/// The estimate over a filled level series: the volatility of the sampled
/// series, or nothing ("no data") when the sample is empty.
pub open spec fn estimate_spec(levels: Seq<int>, config: EstimatorConfig) -> Option<int> {
    let sample = sample_spec(levels, config.base);
    if sample.len() == 0 {
        Option::None
    } else {
        Option::Some(volatility_spec(sample, config.divisor))
    }
}

/// Runs the whole estimation over a merged grid: keeps the most recent
/// `no_of_periods` buckets, consolidates each bucket under `policy`, fills
/// gaps by interpolation, writes the completed series back into the grid,
/// and returns the estimated volatility — or nothing when the sampled
/// series is empty, the run's "no data" outcome.
pub fn calculate_volatility(
    grid: &mut Grid,
    no_of_periods: usize,
    policy: Extremum,
    config: EstimatorConfig,
) -> (r: Option<i64>)
    requires
        old(grid).wf(),
        old(grid)@.len() <= N_MAX,
        no_of_periods <= N_MAX,
    ensures
        final(grid).wf(),
        final(grid)@ == written_back(pruned_spec(old(grid)@, no_of_periods as int), policy),
        ({
            let est = estimate_spec(
                filled_series(pruned_spec(old(grid)@, no_of_periods as int), policy),
                config,
            );
            &&& (r is Some <==> est is Some)
            &&& (r is Some ==> r->0 == est->0 && 0 <= r->0)
        }),
        config.base == EstimatorBase::Levels ==> (r is Some <==> final(grid)@.len() >= 1),
        config.base == EstimatorBase::Returns ==> (r is Some <==> final(grid)@.len() >= 2),
{
    grid.prune(no_of_periods);
    let ghost pruned = grid@;
    let n = grid.len();

    // per-bucket consolidation
    let mut i: usize = 0;
    while i < n
        invariant
            i <= n,
            n == grid@.len(),
            n == pruned.len(),
            grid.wf(),
            forall|j: int|
                i <= j < n ==> grid@[j] == pruned[j],
            forall|j: int|
                0 <= j < i ==> grid@[j] == (
                    pruned[j].0,
                    pruned[j].1.with_consolidated_spec(consolidated_of(pruned[j].1, policy)),
                ),
        decreases n - i,
    {
        let (_, b) = grid.entry_at(i);
        let c = consolidate_bucket(&b, policy);
        proof {
            lemma_consolidation_bounded(b, policy);
            if c is Some {
                let sl = choose|sl: FeedSlot| b.slot_spec(sl) == consolidated_of(b, policy);
                assert(b.slot_spec(sl) == c);
                assert(price_opt_valid(c)) by {
                    match sl {
                        FeedSlot::FeedA => assert(b.feed_a == c),
                        FeedSlot::FeedB => assert(b.feed_b == c),
                        FeedSlot::FeedC => assert(b.feed_c == c),
                        FeedSlot::FeedD => assert(b.feed_d == c),
                    }
                }
            }
        }
        grid.set_consolidated_at(i, c);
        i += 1;
    }

    // chronological series of consolidated prices
    let mut series: Vec<Option<i64>> = Vec::new();
    let mut i: usize = 0;
    while i < n
        invariant
            i <= n,
            n == grid@.len(),
            n == pruned.len(),
            grid.wf(),
            forall|j: int|
                0 <= j < n ==> grid@[j] == (
                    pruned[j].0,
                    pruned[j].1.with_consolidated_spec(consolidated_of(pruned[j].1, policy)),
                ),
            series@.len() == i,
            forall|j: int| 0 <= j < i ==> series@[j] == consolidated_series(pruned, policy)[j],
            forall|j: int| 0 <= j < i ==> price_opt_valid(#[trigger] series@[j]),
        decreases n - i,
    {
        let (_, b) = grid.entry_at(i);
        series.push(b.consolidated);
        i += 1;
    }
    proof {
        assert(series@ =~= consolidated_series(pruned, policy));
    }

    // gap filling
    let filled = fill_series(&series);
    proof {
        assert(forall|j: int|
            0 <= j < n ==> filled@[j] as int == filled_series(pruned, policy)[j]);
    }

    // write the completed series back into the grid
    let mut i: usize = 0;
    while i < n
        invariant
            i <= n,
            n == grid@.len(),
            n == pruned.len(),
            n == filled@.len(),
            grid.wf(),
            forall|j: int| 0 <= j < filled@.len() ==> 0 <= #[trigger] filled@[j] <= PRICE_MAX,
            forall|j: int|
                0 <= j < filled@.len() ==> filled@[j] as int == filled_series(pruned, policy)[j],
            forall|j: int|
                i <= j < n ==> grid@[j] == (
                    pruned[j].0,
                    pruned[j].1.with_consolidated_spec(consolidated_of(pruned[j].1, policy)),
                ),
            forall|j: int| 0 <= j < i ==> grid@[j] == written_back(pruned, policy)[j],
        decreases n - i,
    {
        grid.set_consolidated_at(i, Some(filled[i]));
        i += 1;
    }
    proof {
        assert(grid@ =~= written_back(pruned, policy));
    }

    // estimation
    let r = match config.base {
        EstimatorBase::Levels => {
            proof {
                assert(as_ints(filled@) =~= filled_series(pruned, policy));
            }
            volatility_of(&filled, config.divisor)
        },
        EstimatorBase::Returns => {
            let rets = returns_of(&filled);
            proof {
                assert(as_ints(filled@) =~= filled_series(pruned, policy));
                assert(as_ints(rets@) =~= returns_spec(filled_series(pruned, policy)));
            }
            volatility_of(&rets, config.divisor)
        },
    };
    r
}

/// A grid whose buckets all have every source slot unset consolidates to an
/// all-zero series after gap filling, and the estimated volatility is
/// exactly zero — for the level-based estimator over at least one bucket,
/// and for the return-based estimator over at least two.
pub proof fn lemma_all_unset_grid_zero(
    s: Seq<(i64, Bucket)>,
    policy: Extremum,
    config: EstimatorConfig,
)
    requires
        forall|i: int| 0 <= i < s.len() ==> !some_source_set(#[trigger] s[i].1),
        config.base == EstimatorBase::Levels ==> s.len() >= 1,
        config.base == EstimatorBase::Returns ==> s.len() >= 2,
    ensures
        forall|i: int| 0 <= i < s.len() ==> filled_series(s, policy)[i] == 0,
        estimate_spec(filled_series(s, policy), config) == Option::Some(0int),
{
    let cons = consolidated_series(s, policy);
    assert forall|i: int| 0 <= i < cons.len() implies cons[i] is None by {
        lemma_consolidation_bounded(s[i].1, policy);
    }
    lemma_all_unset_fill_zero(cons);
    let levels = filled_series(s, policy);
    match config.base {
        EstimatorBase::Levels => {
            lemma_volatility_all_zero(levels, config.divisor);
        },
        EstimatorBase::Returns => {
            let sample = returns_spec(levels);
            assert(forall|i: int| 0 <= i < sample.len() ==> sample[i] == 0);
            lemma_volatility_all_zero(sample, config.divisor);
        },
    }
}

} // verus!
