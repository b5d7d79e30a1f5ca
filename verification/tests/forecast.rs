use rusty_stocks::estimator::calculate_drift;
use rusty_stocks::estimator::simple_returns;
use rusty_stocks::forest::apply_inversion;
use rusty_stocks::forest::construct_table;
use rusty_stocks::forest::run_forest;
use rusty_stocks::forest::RandomForest;
use rusty_stocks::predictor::label_stocks;
use rusty_stocks::predictor::predict_stocks;
use rusty_stocks::rng::seed_rng;
use rusty_stocks::simulate::calculate_daily_returns;
use rusty_stocks::simulate::calculate_price_paths;
use rusty_stocks::simulate::exp_micros;
use rusty_stocks::simulate::expected_terminal_price;
use rusty_stocks::split::split_data;
use rusty_stocks::split::split_indices;
use rusty_stocks::stock::Stock;
use rusty_stocks::stock::Tomorrow;
use rusty_stocks::tree::fit_tree;
use rusty_stocks::tree::predict_tree;
use rusty_stocks::tree::Row;
use rusty_stocks::PredictError;
use rusty_stocks::MICROS;

fn stock_with_close(close_micros: i64) -> Stock {
    Stock::new(
        String::from("2024-01-01"),
        close_micros,
        close_micros + 1_000,
        close_micros - 1_000,
        close_micros,
        close_micros,
        1_000,
        Tomorrow::Predict,
    )
}

fn stocks_from_closes(closes: &[i64]) -> Vec<Stock> {
    closes.iter().map(|c| stock_with_close(*c)).collect()
}

#[test]
fn split_partition_lengths() {
    let stocks = stocks_from_closes(&[
        1_000_000, 2_000_000, 3_000_000, 4_000_000, 5_000_000, 6_000_000, 7_000_000, 8_000_000,
        9_000_000, 10_000_000,
    ]);
    let mut rng = seed_rng(7);
    let (train, test) = split_data(stocks.clone(), 700_000, &mut rng).unwrap();
    assert_eq!(train.len(), 7);
    assert_eq!(test.len(), 3);
    assert_eq!(train.len() + test.len(), stocks.len());
    // The two sides together hold exactly the input records.
    let mut seen: Vec<i64> = train.iter().chain(test.iter()).map(|s| s.get_close()).collect();
    seen.sort();
    let mut expected: Vec<i64> = stocks.iter().map(|s| s.get_close()).collect();
    expected.sort();
    assert_eq!(seen, expected);
}

#[test]
fn split_indices_disjoint_cover() {
    let mut rng = seed_rng(11);
    let (train, test) = split_indices(20, 8, &mut rng);
    assert_eq!(train.len(), 8);
    assert_eq!(test.len(), 12);
    for i in &train {
        assert!(*i < 20);
        assert!(!test.contains(i));
    }
    let mut all: Vec<usize> = train.iter().chain(test.iter()).cloned().collect();
    all.sort();
    let expected: Vec<usize> = (0..20).collect();
    assert_eq!(all, expected);
}

#[test]
fn split_same_seed_reproducible() {
    let mut rng1 = seed_rng(42);
    let mut rng2 = seed_rng(42);
    let (a1, b1) = split_indices(15, 6, &mut rng1);
    let (a2, b2) = split_indices(15, 6, &mut rng2);
    assert_eq!(a1, a2);
    assert_eq!(b1, b2);
}

#[test]
fn split_different_seeds_differ() {
    let mut rng1 = seed_rng(1);
    let mut rng2 = seed_rng(2);
    let (a1, _) = split_indices(20, 10, &mut rng1);
    let (a2, _) = split_indices(20, 10, &mut rng2);
    assert_ne!(a1, a2);
}

#[test]
fn split_fraction_zero_rejected() {
    let stocks = stocks_from_closes(&[1_000_000, 2_000_000]);
    let mut rng = seed_rng(3);
    let r = split_data(stocks, 0, &mut rng);
    assert_eq!(r.unwrap_err(), PredictError::InvalidFractionError);
}

#[test]
fn split_fraction_one_rejected() {
    let stocks = stocks_from_closes(&[1_000_000, 2_000_000]);
    let mut rng = seed_rng(3);
    let r = split_data(stocks, MICROS, &mut rng);
    assert_eq!(r.unwrap_err(), PredictError::InvalidFractionError);
}

#[test]
fn split_empty_dataset_rejected() {
    let stocks: Vec<Stock> = Vec::new();
    let mut rng = seed_rng(3);
    let r = split_data(stocks, 500_000, &mut rng);
    assert_eq!(r.unwrap_err(), PredictError::EmptyDatasetError);
}

#[test]
fn returns_exact_values() {
    // Steps of +1%, -2%, +3% off a 100-unit close.
    let stocks = stocks_from_closes(&[100_000_000, 101_000_000, 98_980_000, 101_949_400]);
    let rs = simple_returns(&stocks).unwrap();
    assert_eq!(rs, vec![10_000, -20_000, 30_000]);
}

#[test]
fn drift_exact_values() {
    let stocks = stocks_from_closes(&[100_000_000, 101_000_000, 98_980_000, 101_949_400]);
    let (drift, variance) = calculate_drift(&stocks).unwrap();
    // mean 6_666, population variance 422, drift 6_666 - 211.
    assert_eq!(variance, 422);
    assert_eq!(drift, 6_455);
}

#[test]
fn drift_idempotent() {
    let stocks = stocks_from_closes(&[5_000_000, 5_100_000, 4_950_000, 5_200_000, 5_150_000]);
    let a = calculate_drift(&stocks).unwrap();
    let b = calculate_drift(&stocks).unwrap();
    assert_eq!(a, b);
}

#[test]
fn drift_insufficient_history() {
    let stocks = stocks_from_closes(&[5_000_000]);
    let r = calculate_drift(&stocks);
    assert_eq!(r.unwrap_err(), PredictError::InsufficientHistoryError);
}

#[test]
fn exp_exact_values() {
    assert_eq!(exp_micros(0), 1_000_000);
    assert_eq!(exp_micros(MICROS), 2_718_281);
    assert_eq!(exp_micros(-MICROS), 367_879);
    assert!(exp_micros(-100_000_000) >= 1);
}

#[test]
fn tree_separable_sample() {
    // Ten points straddling 5 on the first feature; label = rise above 5.
    let mut rows: Vec<Row> = Vec::new();
    for v in 1..=10i64 {
        rows.push(Row {
            features: vec![v * MICROS, 0, 0, 0, 0, 0],
            label: v > 5,
        });
    }
    let mut rng = seed_rng(9);
    let tree = fit_tree(&rows, 6, 16, &mut rng);
    for v in 1..=10i64 {
        let features = vec![v * MICROS, 0, 0, 0, 0, 0];
        assert_eq!(predict_tree(&tree, &features), v > 5);
    }
}

#[test]
fn forest_predicts_a_real_direction() {
    let mut rows: Vec<Row> = Vec::new();
    for v in 1..=8i64 {
        rows.push(Row {
            features: vec![v, v, v, v, v, v],
            label: v % 2 == 0,
        });
    }
    let mut rng = seed_rng(5);
    let forest = RandomForest::fit(&rows, 25, 2, &mut rng).unwrap();
    for v in 0..12i64 {
        let verdict = forest.predict(&vec![v, v, v, v, v, v]);
        assert!(verdict == Tomorrow::Increase || verdict == Tomorrow::Decrease);
        assert_ne!(verdict, Tomorrow::Predict);
    }
}

#[test]
fn forest_zero_trees_rejected() {
    let rows = vec![Row { features: vec![1, 2, 3, 4, 5, 6], label: true }];
    let mut rng = seed_rng(5);
    let r = RandomForest::fit(&rows, 0, 2, &mut rng);
    assert_eq!(r.unwrap_err(), PredictError::ModelFitError);
}

#[test]
fn forest_empty_test_set_rejected() {
    let rows = vec![
        Row { features: vec![1, 2, 3, 4, 5, 6], label: true },
        Row { features: vec![6, 5, 4, 3, 2, 1], label: false },
    ];
    let mut rng = seed_rng(5);
    let forest = RandomForest::fit(&rows, 3, 2, &mut rng).unwrap();
    let empty: Vec<Stock> = Vec::new();
    let r = forest.evaluate(&empty);
    assert_eq!(r.unwrap_err(), PredictError::EmptyTestSetError);
}

#[test]
fn paths_shape_positive_and_anchored() {
    let stocks = stocks_from_closes(&[4_000_000, 4_100_000, 4_050_000, 4_200_000]);
    let mut rng = seed_rng(13);
    let paths = calculate_price_paths(&stocks, 5, 7, &mut rng).unwrap();
    assert_eq!(paths.len(), 5);
    for row in &paths {
        assert_eq!(row.len(), 7);
        for entry in row {
            assert!(*entry > 0);
        }
    }
    for entry in &paths[0] {
        assert_eq!(*entry, 4_200_000);
    }
}

#[test]
fn paths_zero_days_rejected() {
    let stocks = stocks_from_closes(&[4_000_000, 4_100_000]);
    let mut rng = seed_rng(13);
    let r = calculate_price_paths(&stocks, 0, 7, &mut rng);
    assert_eq!(r.unwrap_err(), PredictError::InvalidParameterError);
}

#[test]
fn paths_zero_trials_rejected() {
    let stocks = stocks_from_closes(&[4_000_000, 4_100_000]);
    let mut rng = seed_rng(13);
    let r = calculate_price_paths(&stocks, 5, 0, &mut rng);
    assert_eq!(r.unwrap_err(), PredictError::InvalidParameterError);
}

#[test]
fn factors_negative_variance_rejected() {
    let mut rng = seed_rng(13);
    let r = calculate_daily_returns(0, -1, 5, 5, &mut rng);
    assert_eq!(r.unwrap_err(), PredictError::InvalidParameterError);
}

#[test]
fn terminal_price_exact_mean() {
    let paths = vec![vec![10, 10, 10], vec![2, 4, 9]];
    let mean = expected_terminal_price(&paths).unwrap();
    assert_eq!(mean, 5);
}

#[test]
fn inversion_flips_below_chance() {
    let (label, acc) = apply_inversion(Tomorrow::Increase, 300_000);
    assert_eq!(label, Tomorrow::Decrease);
    assert_eq!(acc, 700_000);
    let (label2, acc2) = apply_inversion(Tomorrow::Decrease, 500_000);
    assert_eq!(label2, Tomorrow::Decrease);
    assert_eq!(acc2, 500_000);
}

#[test]
fn labels_derived_from_next_close() {
    let stocks = stocks_from_closes(&[10_000_000, 12_000_000, 11_000_000]);
    let labeled = label_stocks(stocks);
    assert_eq!(labeled[0].get_label(), Tomorrow::Increase);
    assert_eq!(labeled[1].get_label(), Tomorrow::Decrease);
    assert_eq!(labeled[2].get_label(), Tomorrow::Predict);
}

#[test]
fn table_skips_the_unlabeled_target() {
    let mut stocks = stocks_from_closes(&[10_000_000, 12_000_000, 11_000_000]);
    stocks[0].set_tomorrow(Tomorrow::Increase);
    stocks[1].set_tomorrow(Tomorrow::Decrease);
    let rows = construct_table(&stocks);
    assert_eq!(rows.len(), 2);
    assert!(rows[0].label);
    assert!(!rows[1].label);
}

#[test]
fn run_forest_needs_records() {
    let mut rng = seed_rng(17);
    let one = stocks_from_closes(&[10_000_000]);
    assert_eq!(run_forest(&one, &mut rng).unwrap_err(), PredictError::EmptyDatasetError);
    let two = stocks_from_closes(&[10_000_000, 11_000_000]);
    assert_eq!(run_forest(&two, &mut rng).unwrap_err(), PredictError::ModelFitError);
}

#[test]
fn rising_series_predicts_increase() {
    // Five monotonically increasing closes: every labeled record is a
    // rise, so each seeded run votes for a rise deterministically.
    let stocks = stocks_from_closes(&[
        100_000_000, 101_000_000, 102_000_000, 103_000_000, 104_000_000,
    ]);
    let mut rng = seed_rng(2024);
    let p = predict_stocks(stocks, 10, 10, 2_000, &mut rng).unwrap();
    assert_eq!(p.direction, Tomorrow::Increase);
    assert!(p.confidence_micros >= 500_000);
    assert!(p.confidence_micros <= 1_000_000);
    assert!(p.expected_price_micros > 0);
}

#[test]
fn predict_insufficient_history() {
    let stocks = stocks_from_closes(&[10_000_000]);
    let mut rng = seed_rng(1);
    let r = predict_stocks(stocks, 10, 5, 5, &mut rng);
    assert_eq!(r.unwrap_err(), PredictError::InsufficientHistoryError);
}

#[test]
fn default_pipeline_predicts_increase() {
    let stocks = stocks_from_closes(&[
        100_000_000, 101_000_000, 102_000_000, 103_000_000, 104_000_000,
    ]);
    let mut rng = seed_rng(77);
    let p = rusty_stocks::predictor::predict(stocks, &mut rng).unwrap();
    assert_eq!(p.direction, Tomorrow::Increase);
    assert!(p.expected_price_micros > 0);
}

#[test]
fn factors_pinned_without_variance() {
    // With zero variance every draw vanishes: each factor is exactly the
    // exponential of the drift.
    let mut rng = seed_rng(21);
    let m = calculate_daily_returns(0, 0, 3, 4, &mut rng).unwrap();
    for row in &m {
        for entry in row {
            assert_eq!(*entry, 1_000_000);
        }
    }
    let mut rng2 = seed_rng(22);
    let m2 = calculate_daily_returns(MICROS, 0, 2, 3, &mut rng2).unwrap();
    for row in &m2 {
        for entry in row {
            assert_eq!(*entry, 2_718_281);
        }
    }
}

#[test]
fn predict_two_records_cannot_fit() {
    let stocks = stocks_from_closes(&[10_000_000, 11_000_000]);
    let mut rng = seed_rng(23);
    let r = predict_stocks(stocks, 5, 4, 6, &mut rng);
    assert_eq!(r.unwrap_err(), PredictError::ModelFitError);
}

#[test]
fn three_records_always_predict() {
    let stocks = stocks_from_closes(&[10_000_000, 9_000_000, 11_000_000]);
    let mut rng = seed_rng(24);
    let p = predict_stocks(stocks, 5, 4, 6, &mut rng).unwrap();
    assert!(p.confidence_micros >= 500_000);
    assert_ne!(p.direction, Tomorrow::Predict);
}
