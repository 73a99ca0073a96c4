use brunch::abacus::Abacus;

/// The classic duplicate-heavy sample set, in hundredth-ticks.
fn t_set() -> Vec<u64> {
    vec![
        100, 100, 100, 180, 180, 190, 190, 190, 190, 200, 200, 200, 200, 210, 210, 220, 220, 230,
        230, 240, 240, 300, 300, 300,
    ]
}

#[test]
fn t_nanos() {
    let nanos = Abacus::from_ticks(&t_set());

    assert_eq!(nanos.min(), 100, "Min.");
    assert_eq!(nanos.max(), 300, "Max.");
    assert_eq!(nanos.mean(), 205, "Mean.");
    assert_eq!(nanos.deviation(), 52, "Standard deviation.");
    assert_eq!(nanos.quantile(1, 2), 200, "Median.");
    assert_eq!(nanos.ideal_quantile(1, 20), 200, "Fussy 5%.");
    assert_eq!(nanos.ideal_quantile(19, 20), 600, "Fussy 95%.");
}

#[test]
fn t_quantile_bounds() {
    let a = Abacus::from_ticks(&t_set());
    assert_eq!(a.quantile(0, 1), a.min());
    assert_eq!(a.quantile(1, 1), a.max());
    assert_eq!(a.quantile(5, 4), a.max());
    let q = a.quantile(1, 2);
    assert!(t_set().contains(&(q as u64)));
    let q2 = a.quantile(7, 10);
    assert!(t_set().contains(&(q2 as u64)));
}

#[test]
fn t_ideal_near_boundary() {
    let a = Abacus::from_ticks(&t_set());
    // 1/100 and 99/100 sit within 1.5 * epsilon of the ends for 24
    // samples, so no smoothing happens.
    assert_eq!(a.ideal_quantile(1, 100), 2 * (a.quantile(1, 100) as u64));
    assert_eq!(a.ideal_quantile(99, 100), 2 * (a.quantile(99, 100) as u64));
    assert_eq!(a.ideal_quantile(0, 7), 2 * (a.min() as u64));
    assert_eq!(a.ideal_quantile(9, 9), 2 * (a.max() as u64));
}

#[test]
fn t_uniform_set() {
    let a = Abacus::from_ticks(&vec![777; 50]);
    assert_eq!(a.len(), 50);
    assert_eq!(a.mean(), 777);
    assert_eq!(a.deviation(), 0);
    assert_eq!(a.min(), 777);
    assert_eq!(a.max(), 777);
    assert_eq!(a.quantile(1, 2), 777);
}

#[test]
fn t_empty_set() {
    let a = Abacus::from_ticks(&Vec::new());
    assert_eq!(a.len(), 0);
    assert_eq!(a.min(), 0);
    assert_eq!(a.max(), 0);
    assert_eq!(a.mean(), 0);
    assert_eq!(a.deviation(), 0);
    assert_eq!(a.quantile(1, 2), 0);
    assert_eq!(a.ideal_quantile(1, 2), 0);
}

#[test]
fn t_abnormal_samples_dropped() {
    // Ticks beyond the representable range are discarded on entry.
    let a = Abacus::from_ticks(&vec![5_000_000_000, 6_000_000_000]);
    assert_eq!(a.len(), 0);
    let b = Abacus::from_ticks(&vec![5_000_000_000, 42]);
    assert_eq!(b.len(), 1);
    assert_eq!(b.min(), 42);
}

#[test]
fn t_prune_removes_outlier() {
    // 99 samples spread across [1000, 1098] plus one enormous outlier.
    let mut samples: Vec<u64> = (1000..=1098).collect();
    samples.push(1_000_000_000);
    let mut a = Abacus::from_ticks(&samples);
    assert_eq!(a.len(), 100);
    a.prune_outliers();
    assert_eq!(a.len(), 99);
    assert_eq!(a.min(), 1000);
    assert_eq!(a.max(), 1098);
}

#[test]
fn t_prune_keeps_tight_set() {
    let mut a = Abacus::from_ticks(&t_set());
    a.prune_outliers();
    assert_eq!(a.len(), 24);
    assert_eq!(a.mean(), 205);
}

#[test]
fn t_prune_idempotent() {
    // Once on the tight set.
    let mut a = Abacus::from_ticks(&t_set());
    a.prune_outliers();
    let once = (a.len(), a.min(), a.max(), a.mean(), a.deviation());
    a.prune_outliers();
    let twice = (a.len(), a.min(), a.max(), a.mean(), a.deviation());
    assert_eq!(once, twice);

    // And once on a set that actually loses an outlier.
    let mut samples: Vec<u64> = (1000..=1098).collect();
    samples.push(1_000_000_000);
    let mut b = Abacus::from_ticks(&samples);
    b.prune_outliers();
    let once = (b.len(), b.min(), b.max(), b.mean(), b.deviation());
    b.prune_outliers();
    let twice = (b.len(), b.min(), b.max(), b.mean(), b.deviation());
    assert_eq!(once, twice);
}

#[test]
fn t_prune_uniform_noop() {
    let mut a = Abacus::from_ticks(&vec![2200; 200]);
    a.prune_outliers();
    assert_eq!(a.len(), 200);
    assert_eq!(a.deviation(), 0);
    assert_eq!(a.mean(), 2200);
}
