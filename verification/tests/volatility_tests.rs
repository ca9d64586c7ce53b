use rand::Rng;
use volatility_estimator::consolidate::Extremum;
use volatility_estimator::grid::{FeedSlot, Grid};
use volatility_estimator::rounding::Granularity;
use volatility_estimator::stats::{calculate_volatility, volatility_of, Divisor};
use volatility_estimator::volatility::{self, EstimatorBase, EstimatorConfig};
use volatility_estimator::PRICE_SCALE;

fn to_units(price: f64) -> i64 {
    (price * PRICE_SCALE as f64).round() as i64
}

fn to_price(units: i64) -> f64 {
    units as f64 / PRICE_SCALE as f64
}

#[test]
fn test_calculate_volatility_with_random_prices() {
    let mut rng = rand::thread_rng();

    let now = chrono::Utc::now().timestamp();

    // Generate 50 random prices between 50.0 and 150.0, one per second
    let mut observations: Vec<(i64, i64)> = Vec::new();
    for i in 0..50 {
        let timestamp = now - i;
        let random_price: f64 = rng.gen_range(50.0..150.0);
        observations.push((timestamp, to_units(random_price)));
    }

    let mut grid = Grid::new();
    grid.merge(&observations, FeedSlot::FeedA, Granularity::Second);

    // Set the number of periods for vol calculation
    let no_of_periods = 50;

    let config = EstimatorConfig { base: EstimatorBase::Returns, divisor: Divisor::Sample };
    match volatility::calculate_volatility(&mut grid, no_of_periods, Extremum::Maximum, config) {
        Some(volatility) => {
            // Ensure volatility is non-negative
            assert!(
                to_price(volatility) >= 0.0,
                "Calculated volatility should be non-negative"
            );
            println!("Calculated volatility: {:.6}", to_price(volatility));
        }
        None => panic!("Volatility calculation returned None"),
    }
}

#[test]
fn test_interpolation_in_calculate_volatility() {
    // Base timestamp for the data
    let base_timestamp = chrono::Utc::now().timestamp();

    // Six one-second buckets ending at base_timestamp + 5, all starting unset
    let mut grid = Grid::initialize(base_timestamp + 5, 6, Granularity::Second);

    // Add defined values, leaving a gap at seconds 2 and 3 to be interpolated
    let observations: Vec<(i64, i64)> = vec![
        (base_timestamp, to_units(100.0)),
        (base_timestamp + 1, to_units(110.0)),
        (base_timestamp + 4, to_units(130.0)),
        (base_timestamp + 5, to_units(150.0)),
    ];
    grid.merge(&observations, FeedSlot::FeedA, Granularity::Second);

    // Set the number of periods for calculation
    let no_of_periods = 6;

    let config = EstimatorConfig { base: EstimatorBase::Returns, divisor: Divisor::Sample };
    match volatility::calculate_volatility(&mut grid, no_of_periods, Extremum::Maximum, config) {
        Some(volatility) => {
            // Ensure volatility is non-negative
            assert!(
                to_price(volatility) >= 0.0,
                "Calculated volatility should be non-negative"
            );
            println!("Calculated volatility: {:.6}", to_price(volatility));

            // Check the interpolated values
            for i in 0..grid.len() {
                let (timestamp, bucket) = grid.entry_at(i);
                let vol = bucket.consolidated;
                println!("Timestamp: {:?}, VOL: {:?}", timestamp, vol);

                // Ensure that the previously unset values were interpolated
                if timestamp == base_timestamp + 2 || timestamp == base_timestamp + 3 {
                    assert!(
                        vol.is_some(),
                        "Interpolated values at timestamp {:?} should not be None",
                        timestamp
                    );
                }
            }
        }
        None => panic!("Volatility calculation returned None"),
    }
}

#[test]
fn test_calculate_volatility_with_given_returns() {
    // The provided array of returns
    let returns = [
        -0.009103197429499166,
        0.00936993735757305,
        0.029206122417959775,
        0.02454310503968983,
        -0.003897404481121453,
        -0.0016206733055013926,
        -0.059715779339231896,
        -0.032363131598655955,
        0.03308966289047178,
        -0.02687462172174898,
        -0.0005457007004976708,
        -0.020294105989139413,
        0.04498320993648113,
        -0.03311026236166164,
        -0.02686631709822145,
        -0.006869607080694805,
        -0.046841730530681004,
        -0.004572433598902075,
        0.0033733624454148074,
        0.017310600702869182,
        0.0146524064171123,
        -0.007494466111520875,
        0.0017523550589957602,
        0.021652771298927145,
        0.006357238130444961,
        -0.01630196872976134,
        -0.03313538724334515,
        0.014149029131476348,
        0.009171659928307856,
    ];

    // Standard deviation of the returns with the sample divisor
    let units: Vec<i64> = returns.iter().map(|&r| to_units(r)).collect();
    let calculated_volatility = match volatility_of(&units, Divisor::Sample) {
        Some(v) => to_price(v),
        None => panic!("Volatility calculation returned None"),
    };

    // Expected volatility
    let expected_volatility = 0.024631;

    // Assert the calculated volatility is approximately equal to the expected volatility
    assert!(
        (calculated_volatility - expected_volatility).abs() < 1e-6,
        "Calculated volatility: {:.6}, Expected volatility: {:.6}",
        calculated_volatility,
        expected_volatility
    );
}

#[test]
fn calculate_volatility_test_test_calculate_volatility_with_random_prices() {
    let mut rng = rand::thread_rng();

    // Generate 50 random prices between 50.0 and 150.0
    let vw_values: Vec<i64> = (0..50).map(|_| to_units(rng.gen_range(50.0..150.0))).collect();

    // Call the volatility calculation function
    if let Some(volatility) = calculate_volatility(&vw_values) {
        // Ensure volatility is non-negative
        assert!(to_price(volatility) >= 0.0);
        println!("Calculated volatility: {:.6}", to_price(volatility));
    } else {
        panic!("Volatility calculation returned None");
    }
}
