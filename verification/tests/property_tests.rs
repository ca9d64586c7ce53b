use volatility_estimator::config::{validate_config, ConfigError};
use volatility_estimator::consolidate::{consolidate_bucket, Extremum};
use volatility_estimator::grid::{Bucket, FeedSlot, Grid};
use volatility_estimator::interpolate::fill_series;
use volatility_estimator::rounding::{round_to_period, Granularity};
use volatility_estimator::stats::{returns_of, Divisor};
use volatility_estimator::volatility::{calculate_volatility, EstimatorBase, EstimatorConfig};
use volatility_estimator::PRICE_SCALE;

const HOUR: i64 = 3600;

fn units(price: i64) -> i64 {
    price * PRICE_SCALE
}

fn hourly_grid(now: i64, periods: usize) -> Grid {
    Grid::initialize(now, periods, Granularity::Hour)
}

#[test]
fn rounding_truncates_to_period_start() {
    assert_eq!(round_to_period(7261, "second"), 7261);
    assert_eq!(round_to_period(7261, "minute"), 7260);
    assert_eq!(round_to_period(7261, "hour"), 7200);
    assert_eq!(round_to_period(7261, "day"), 0);
    assert_eq!(round_to_period(90061, "day"), 86400);
    // an unrecognized period name falls back to hourly rounding
    assert_eq!(round_to_period(7261, "fortnight"), 7200);
}

#[test]
fn rounding_is_idempotent() {
    for period in ["second", "minute", "hour", "day", "fortnight"] {
        for t in [0i64, 59, 60, 3599, 3600, 7261, 86399, 86400, 1_700_000_123] {
            let once = round_to_period(t, period);
            assert_eq!(round_to_period(once, period), once);
        }
    }
}

#[test]
fn grid_initialize_builds_contiguous_window() {
    let now = 100 * HOUR + 1234;
    let grid = hourly_grid(now, 5);
    assert_eq!(grid.len(), 5);
    for i in 0..5 {
        let (key, bucket) = grid.entry_at(i);
        assert_eq!(key, 96 * HOUR + (i as i64) * HOUR);
        assert!(bucket.feed_a.is_none());
        assert!(bucket.feed_b.is_none());
        assert!(bucket.feed_c.is_none());
        assert!(bucket.feed_d.is_none());
        assert!(bucket.consolidated.is_none());
    }
}

#[test]
fn merge_is_commutative_across_slots() {
    let now = 50 * HOUR;
    let obs_a = vec![(46 * HOUR + 7, units(101)), (48 * HOUR + 9, units(99))];
    let obs_b = vec![(46 * HOUR + 100, units(103)), (49 * HOUR, units(97))];

    let mut first = hourly_grid(now, 4);
    first.merge(&obs_a, FeedSlot::FeedA, Granularity::Hour);
    first.merge(&obs_b, FeedSlot::FeedB, Granularity::Hour);

    let mut second = hourly_grid(now, 4);
    second.merge(&obs_b, FeedSlot::FeedB, Granularity::Hour);
    second.merge(&obs_a, FeedSlot::FeedA, Granularity::Hour);

    assert_eq!(first.len(), second.len());
    for i in 0..first.len() {
        let (k1, b1) = first.entry_at(i);
        let (k2, b2) = second.entry_at(i);
        assert_eq!(k1, k2);
        assert_eq!(b1.feed_a, b2.feed_a);
        assert_eq!(b1.feed_b, b2.feed_b);
        assert_eq!(b1.feed_c, b2.feed_c);
        assert_eq!(b1.feed_d, b2.feed_d);
        assert_eq!(b1.consolidated, b2.consolidated);
    }
}

#[test]
fn merge_last_write_wins_within_slot() {
    let mut grid = hourly_grid(10 * HOUR, 2);
    let obs = vec![(9 * HOUR + 5, units(100)), (9 * HOUR + 1, units(105))];
    grid.merge(&obs, FeedSlot::FeedC, Granularity::Hour);
    let (key, bucket) = grid.entry_at(0);
    assert_eq!(key, 9 * HOUR);
    assert_eq!(bucket.feed_c, Some(units(105)));
}

#[test]
fn merge_creates_missing_buckets() {
    let mut grid = hourly_grid(10 * HOUR, 2);
    assert_eq!(grid.len(), 2);
    let obs = vec![(2 * HOUR + 30, units(88))];
    grid.merge(&obs, FeedSlot::FeedD, Granularity::Hour);
    assert_eq!(grid.len(), 3);
    let (key, bucket) = grid.entry_at(0);
    assert_eq!(key, 2 * HOUR);
    assert_eq!(bucket.feed_d, Some(units(88)));
}

#[test]
fn prune_keeps_most_recent() {
    let mut grid = hourly_grid(20 * HOUR, 6);
    grid.prune(2);
    assert_eq!(grid.len(), 2);
    let (k0, _) = grid.entry_at(0);
    let (k1, _) = grid.entry_at(1);
    assert_eq!(k0, 19 * HOUR);
    assert_eq!(k1, 20 * HOUR);
}

#[test]
fn consolidation_stays_within_source_band() {
    let bucket = Bucket {
        feed_a: Some(units(5)),
        feed_b: Some(units(3)),
        feed_c: None,
        feed_d: Some(units(4)),
        consolidated: None,
    };
    let lo = units(3);
    let hi = units(5);
    for policy in [Extremum::Maximum, Extremum::Minimum] {
        let c = consolidate_bucket(&bucket, policy).expect("a set source");
        assert!(lo <= c && c <= hi);
    }
}

#[test]
fn consolidation_picks_the_policy_extremum() {
    let bucket = Bucket {
        feed_a: Some(units(5)),
        feed_b: Some(units(3)),
        feed_c: None,
        feed_d: Some(units(4)),
        consolidated: None,
    };
    assert_eq!(consolidate_bucket(&bucket, Extremum::Maximum), Some(units(5)));
    assert_eq!(consolidate_bucket(&bucket, Extremum::Minimum), Some(units(3)));
    let empty = Bucket {
        feed_a: None,
        feed_b: None,
        feed_c: None,
        feed_d: None,
        consolidated: None,
    };
    assert_eq!(consolidate_bucket(&empty, Extremum::Maximum), None);
}

#[test]
fn interior_gap_interpolates_linearly() {
    let series = vec![Some(units(110)), None, None, Some(units(130))];
    let filled = fill_series(&series);
    // the k-th point of a gap of length 2 is v0 + (v1 - v0) * k / 3
    assert_eq!(filled, vec![units(110), 116_666_666_666, 123_333_333_333, units(130)]);
    // monotonic between the two endpoints
    assert!(filled[0] <= filled[1] && filled[1] <= filled[2] && filled[2] <= filled[3]);
}

#[test]
fn leading_gap_backfills_first_known_value() {
    let series = vec![None, None, Some(units(42)), Some(units(50))];
    let filled = fill_series(&series);
    assert_eq!(filled, vec![units(42), units(42), units(42), units(50)]);
}

#[test]
fn trailing_gap_fills_flat() {
    let series = vec![Some(units(100)), Some(units(120)), None, None];
    let filled = fill_series(&series);
    assert_eq!(filled, vec![units(100), units(120), units(120), units(120)]);
}

#[test]
fn all_unset_grid_estimates_zero_volatility() {
    for base in [EstimatorBase::Levels, EstimatorBase::Returns] {
        let mut grid = hourly_grid(30 * HOUR, 5);
        let config = EstimatorConfig { base, divisor: Divisor::Sample };
        let vol = calculate_volatility(&mut grid, 5, Extremum::Maximum, config);
        assert_eq!(vol, Some(0));
        for i in 0..grid.len() {
            let (_, bucket) = grid.entry_at(i);
            assert_eq!(bucket.consolidated, Some(0));
        }
    }
}

#[test]
fn end_to_end_six_hourly_buckets() {
    let now = 1000 * HOUR;
    let mut grid = hourly_grid(now, 6);
    let obs = vec![
        (995 * HOUR + 10, units(100)),
        (996 * HOUR + 20, units(110)),
        (999 * HOUR + 30, units(130)),
        (1000 * HOUR + 40, units(150)),
    ];
    grid.merge(&obs, FeedSlot::FeedB, Granularity::Hour);

    let config = EstimatorConfig { base: EstimatorBase::Levels, divisor: Divisor::Sample };
    let vol = calculate_volatility(&mut grid, 6, Extremum::Maximum, config)
        .expect("six buckets give a volatility");

    let expected = [
        units(100),
        units(110),
        116_666_666_666,
        123_333_333_333,
        units(130),
        units(150),
    ];
    for i in 0..grid.len() {
        let (_, bucket) = grid.entry_at(i);
        assert_eq!(bucket.consolidated, Some(expected[i]));
    }

    // sample standard deviation of the filled levels
    assert_eq!(vol, 17_352_553_446);
    let as_price = vol as f64 / PRICE_SCALE as f64;
    assert!((as_price - 17.352553).abs() < 1e-5);
}

#[test]
fn empty_grid_reports_no_data() {
    let mut grid = Grid::new();
    let config = EstimatorConfig { base: EstimatorBase::Returns, divisor: Divisor::Sample };
    let vol = calculate_volatility(&mut grid, 100, Extremum::Maximum, config);
    assert_eq!(vol, None);
    assert_eq!(grid.len(), 0);
}

#[test]
fn single_bucket_has_no_returns() {
    let mut grid = hourly_grid(10 * HOUR, 1);
    let obs = vec![(9 * HOUR + 1, units(123))];
    grid.merge(&obs, FeedSlot::FeedA, Granularity::Hour);
    let config = EstimatorConfig { base: EstimatorBase::Returns, divisor: Divisor::Sample };
    assert_eq!(calculate_volatility(&mut grid, 1, Extremum::Maximum, config), None);
}

#[test]
fn returns_guard_division_by_zero() {
    // a return against a previous value of zero counts as zero
    let rets = returns_of(&vec![0, units(5)]);
    assert_eq!(rets, vec![0]);
    // an ordinary return is the fixed-point ratio of the change
    let rets = returns_of(&vec![units(100), units(110)]);
    assert_eq!(rets, vec![PRICE_SCALE / 10]);
}

#[test]
fn validate_config_rejects_bad_period_count() {
    assert_eq!(
        validate_config(0, "hour").unwrap_err(),
        ConfigError::InvalidPeriodCount
    );
    assert_eq!(
        validate_config(741, "hour").unwrap_err(),
        ConfigError::InvalidPeriodCount
    );
}

#[test]
fn validate_config_rejects_unknown_period_name() {
    assert_eq!(
        validate_config(100, "fortnight").unwrap_err(),
        ConfigError::UnsupportedTimePeriod
    );
}

#[test]
fn validate_config_accepts_good_config() {
    let cfg = validate_config(100, "day").unwrap();
    assert_eq!(cfg.no_of_periods, 100);
    assert_eq!(cfg.granularity, Granularity::Day);
}

#[test]
fn largest_window_is_accepted() {
    let cfg = validate_config(740, "hour").unwrap();
    assert_eq!(cfg.no_of_periods, 740);
    let now = 1_700_000_000;
    let mut grid = Grid::initialize(now, 740, Granularity::Hour);
    assert_eq!(grid.len(), 740);
    let config = EstimatorConfig { base: EstimatorBase::Levels, divisor: Divisor::Sample };
    let vol = calculate_volatility(&mut grid, 740, Extremum::Maximum, config);
    assert_eq!(vol, Some(0));
}

#[test]
fn merge_is_idempotent_per_observation() {
    let obs = vec![(9 * HOUR + 5, units(100)), (8 * HOUR + 3, units(90))];

    let mut once = hourly_grid(10 * HOUR, 3);
    once.merge(&obs, FeedSlot::FeedA, Granularity::Hour);

    let mut twice = hourly_grid(10 * HOUR, 3);
    twice.merge(&obs, FeedSlot::FeedA, Granularity::Hour);
    twice.merge(&obs, FeedSlot::FeedA, Granularity::Hour);

    assert_eq!(once.len(), twice.len());
    for i in 0..once.len() {
        let (k1, b1) = once.entry_at(i);
        let (k2, b2) = twice.entry_at(i);
        assert_eq!(k1, k2);
        assert_eq!(b1.feed_a, b2.feed_a);
        assert_eq!(b1.feed_b, b2.feed_b);
        assert_eq!(b1.feed_c, b2.feed_c);
        assert_eq!(b1.feed_d, b2.feed_d);
    }
}
