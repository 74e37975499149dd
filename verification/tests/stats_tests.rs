use load_harness::stats::{aggregate, Stats};

#[test]
fn three_samples_mean_and_variance() {
    let stats = aggregate(&[10, 20, 30]).unwrap();
    assert_eq!(stats, Stats { count: 3, total: 60, spread: 600 });
    assert_eq!(stats.mean(), 20);
    assert_eq!(stats.variance(), 66);
    let n = stats.count as f64;
    let mean = stats.total as f64 / n;
    let variance = stats.spread as f64 / (n * n);
    assert_eq!(mean, 20.0);
    assert!((variance - 200.0 / 3.0).abs() < 1e-9);
    assert!((variance - 66.67).abs() < 0.01);
}

#[test]
fn no_samples_no_statistics() {
    assert_eq!(aggregate(&[]), None);
}

#[test]
fn one_sample_has_no_spread() {
    assert_eq!(aggregate(&[7]), Some(Stats { count: 1, total: 7, spread: 0 }));
    assert_eq!(aggregate(&[u64::MAX]), Some(Stats { count: 1, total: u64::MAX as u128, spread: 0 }));
}

#[test]
fn equal_samples_have_no_spread() {
    let stats = aggregate(&[5, 5, 5, 5]).unwrap();
    assert_eq!(stats, Stats { count: 4, total: 20, spread: 0 });
    assert_eq!(stats.mean(), 5);
    assert_eq!(stats.variance(), 0);
}

#[test]
fn variance_is_the_population_variance() {
    // mean 5, squared distances 9 + 1 + 1 + 9 = 20, over 4 samples: 5
    let stats = aggregate(&[2, 4, 6, 8]).unwrap();
    assert_eq!(stats, Stats { count: 4, total: 20, spread: 80 });
    assert_eq!(stats.mean(), 5);
    assert_eq!(stats.variance(), 5);
    // the sample variance would be 20 / 3, the standard deviation about 2.2
    assert_ne!(stats.variance(), 6);
    assert_ne!(stats.variance(), 2);
}

#[test]
fn mean_and_variance_round_down() {
    let stats = aggregate(&[1, 2]).unwrap();
    assert_eq!(stats, Stats { count: 2, total: 3, spread: 1 });
    assert_eq!(stats.mean(), 1);
    assert_eq!(stats.variance(), 0);
}

#[test]
fn statistics_do_not_depend_on_the_order() {
    let expected = aggregate(&[10, 20, 30, 45, 45]);
    assert_eq!(aggregate(&[45, 30, 10, 45, 20]), expected);
    assert_eq!(aggregate(&[45, 45, 30, 20, 10]), expected);
    assert_eq!(aggregate(&[20, 45, 10, 45, 30]), expected);
    assert_eq!(expected, Some(Stats { count: 5, total: 150, spread: 5 * 5450 - 150 * 150 }));
}

#[test]
fn sums_that_do_not_fit_give_no_statistics() {
    assert_eq!(aggregate(&[u64::MAX, u64::MAX]), None);
    assert_eq!(aggregate(&[u64::MAX, 0]), None);
    assert_eq!(aggregate(&[1 << 63, 1 << 63]), None);
}

#[test]
fn large_samples_that_still_fit() {
    let big: u64 = 1 << 63;
    // 2 * (2^126 + 0) = 2^127 fits; the spread is 2 * 2^126 - 2^126
    assert_eq!(
        aggregate(&[big, 0]),
        Some(Stats { count: 2, total: 1 << 63, spread: 1 << 126 })
    );
}
