//! Run-level configuration checks: the period count and the period name.
//!
//! A bad configuration is fatal for the run and is rejected before any feed
//! is fetched; the feed adapters' own failures, by contrast, are recoverable
//! and never reach this layer.

use vstd::prelude::*;
use crate::rounding::{granularity_of_name, parse_granularity, str_eq, Granularity};

verus! {

/// Largest accepted number of periods in one run.
pub const MAX_PERIODS: usize = 740;

/// Why a run configuration was rejected.
#[derive(Clone, Copy, Debug, PartialEq, Eq, Structural)]
pub enum ConfigError {
    /// The period count is zero or not below the sane upper bound.
    InvalidPeriodCount,
    /// The period name is none of `"second"`, `"minute"`, `"hour"`, `"day"`.
    UnsupportedTimePeriod,
}

/// A validated run configuration.
#[derive(Clone, Copy, Debug, PartialEq, Eq, Structural)]
pub struct RunConfig {
    pub no_of_periods: usize,
    pub granularity: Granularity,
}

/// Whether a period name is one the run accepts.
pub open spec fn supported_period_name(name: Seq<char>) -> bool {
    ||| name == "second"@
    ||| name == "minute"@
    ||| name == "hour"@
    ||| name == "day"@
}

fn is_supported_period(name: &str) -> (r: bool)
    ensures
        r == supported_period_name(name@),
{
    str_eq(name, "second") || str_eq(name, "minute") || str_eq(name, "hour") || str_eq(
        name,
        "day",
    )
}

/// Checks a run configuration: the period count must be positive and below
/// the sane upper bound, and the period name must be one of the four the
/// run accepts. The period count is checked first.
pub fn validate_config(no_of_periods: usize, time_period: &str) -> (r: Result<
    RunConfig,
    ConfigError,
>)
    ensures
        r is Ok <==> (1 <= no_of_periods <= MAX_PERIODS && supported_period_name(time_period@)),
        r is Ok ==> r->Ok_0 == (RunConfig {
            no_of_periods,
            granularity: granularity_of_name(time_period@),
        }),
        r is Err && !(1 <= no_of_periods <= MAX_PERIODS) ==> r->Err_0
            == ConfigError::InvalidPeriodCount,
        r is Err && (1 <= no_of_periods <= MAX_PERIODS) ==> r->Err_0
            == ConfigError::UnsupportedTimePeriod,
{
    if no_of_periods == 0 || no_of_periods > MAX_PERIODS {
        Err(ConfigError::InvalidPeriodCount)
    } else if !is_supported_period(time_period) {
        Err(ConfigError::UnsupportedTimePeriod)
    } else {
        Ok(RunConfig { no_of_periods, granularity: parse_granularity(time_period) })
    }
}

} // verus!
