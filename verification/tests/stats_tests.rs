use brunch::error::BenchError;
use brunch::error::BrunchError;
use brunch::stats::Deviance;
use brunch::stats::Stats;

#[test]
fn t_stats_valid() {
    let mut stat = Stats { total: 2500, valid: 2496, deviation: 123, mean: 2200 };

    assert!(stat.is_valid(), "Stat should be valid.");

    stat.total = 100;
    assert!(!stat.is_valid(), "Insufficient total.");

    stat.valid = 100;
    assert!(stat.is_valid(), "Stat should be valid.");

    stat.valid = 30;
    assert!(!stat.is_valid(), "Insufficient samples.");

    stat.valid = 100;
    assert!(stat.is_valid(), "Stat should be valid.");

    stat.deviation = 3000;
    assert!(stat.is_valid(), "Stat should be valid.");

    stat.mean = 0;
    assert!(stat.is_valid(), "Stat should be valid.");
}

#[test]
fn stats_t_stats_valid() {
    let mut stat = Stats { total: 2500, valid: 2496, deviation: 123, mean: 2200 };
    assert!(stat.is_valid(), "Stat should be valid.");
    stat.valid = 2501;
    assert!(!stat.is_valid(), "More valid than total.");
    stat.valid = 2500;
    assert!(stat.is_valid(), "Stat should be valid.");
}

#[test]
fn mod_t_stats_valid() {
    let mut stat = Stats { total: 100, valid: 100, deviation: 0, mean: 0 };
    assert!(stat.is_valid(), "Stat should be valid.");
    stat.valid = 99;
    assert!(!stat.is_valid(), "Insufficient samples.");
    stat.total = 99;
    stat.valid = 100;
    assert!(!stat.is_valid(), "More valid than total.");
}

#[test]
fn t_from_samples_too_small() {
    let r = Stats::from_samples(vec![2200; 99]);
    assert_eq!(r, Err(BrunchError::TooSmall(99)));
    let r = Stats::from_samples(Vec::new());
    assert_eq!(r, Err(BrunchError::TooSmall(0)));
}

#[test]
fn t_from_samples_uniform() {
    // A uniform run of at least the minimum always succeeds, with the
    // sample itself as mean and no spread at all.
    let r = Stats::from_samples(vec![5000; 150]).unwrap();
    assert_eq!(r.samples(), (150, 150));
    assert_eq!(r.mean, 5000);
    assert_eq!(r.deviation, 0);
}

#[test]
fn t_from_samples_too_wild() {
    // Pruning eats the outlier and drops the run below the floor.
    let mut samples: Vec<u64> = (1000..=1098).collect();
    samples.push(1_000_000_000);
    let r = Stats::from_samples(samples);
    assert_eq!(r, Err(BrunchError::TooWild));
}

#[test]
fn t_from_samples_pruned_ok() {
    let mut samples: Vec<u64> = (1000..=1198).collect();
    samples.push(1_000_000_000);
    let r = Stats::from_samples(samples).unwrap();
    assert_eq!(r.samples(), (199, 200));
    assert_eq!(r.mean, 1099);
}

#[test]
fn t_is_deviant() {
    let now = Stats { total: 2500, valid: 2496, deviation: 1, mean: 100 };

    // 103 sits outside [98, 102]: slower in the past, faster now.
    let prev = Stats { total: 2500, valid: 2496, deviation: 1, mean: 103 };
    assert_eq!(
        now.is_deviant(prev),
        Some(Deviance { slower: false, diff: 3, base: 103 })
    );

    // 101 sits inside the envelope: no meaningful change.
    let prev = Stats { total: 2500, valid: 2496, deviation: 1, mean: 101 };
    assert_eq!(now.is_deviant(prev), None);

    // 97 sits outside on the low side: the current run is slower.
    let prev = Stats { total: 2500, valid: 2496, deviation: 1, mean: 97 };
    assert_eq!(
        now.is_deviant(prev),
        Some(Deviance { slower: true, diff: 3, base: 97 })
    );

    // The envelope boundary itself does not count.
    let prev = Stats { total: 2500, valid: 2496, deviation: 1, mean: 102 };
    assert_eq!(now.is_deviant(prev), None);
    let prev = Stats { total: 2500, valid: 2496, deviation: 1, mean: 98 };
    assert_eq!(now.is_deviant(prev), None);
}

#[test]
fn t_is_deviant_zero_spread() {
    // With no spread at all, any different previous mean deviates.
    let now = Stats { total: 200, valid: 200, deviation: 0, mean: 100 };
    let prev = Stats { total: 200, valid: 200, deviation: 0, mean: 101 };
    assert_eq!(
        now.is_deviant(prev),
        Some(Deviance { slower: false, diff: 1, base: 101 })
    );
    let prev = Stats { total: 200, valid: 200, deviation: 0, mean: 100 };
    assert_eq!(now.is_deviant(prev), None);
}

#[test]
fn t_bench_error_messages() {
    assert_eq!(
        BenchError::Inconsistent.as_str(),
        "Results were too inconsistent."
    );
    assert_eq!(BenchError::MissingCallback.as_str(), "No callback specified!");
    assert_eq!(BenchError::TooFast.as_str(), "The bench was too fast.");
    assert_eq!(BenchError::TooSlow.as_str(), "The bench was too slow.");
}
