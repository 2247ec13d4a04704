use bench_compare::{
    BenchComparison, BenchReport, BenchResult, ComparisonOutcome, Delta, RegressionDetector,
};

fn make_result(name: &str, mean: f64, stddev: f64) -> BenchResult<f64> {
    BenchResult::new(name, mean, mean, stddev, 100)
}

fn relative_error(r: &BenchResult<f64>) -> f64 {
    if r.mean_ns == 0.0 {
        0.0
    } else {
        r.stddev_ns / r.mean_ns
    }
}

/// The change between two results by mean time, measured against a threshold.
fn delta(baseline: &BenchResult<f64>, current: &BenchResult<f64>, threshold: f64) -> Delta<f64> {
    let change_percent = ((current.mean_ns - baseline.mean_ns) / baseline.mean_ns) * 100.0;
    let combined = (relative_error(baseline).powi(2) + relative_error(current).powi(2)).sqrt();
    Delta {
        change_percent,
        confidence_interval: combined * 100.0,
        below_threshold: change_percent < -threshold,
        above_threshold: change_percent > threshold,
    }
}

fn compare(b: &BenchResult<f64>, c: &BenchResult<f64>, threshold: f64) -> BenchComparison<f64> {
    BenchComparison::from_delta(b, c, delta(b, c, threshold))
}

fn compare_sets(b: &[BenchResult<f64>], c: &[BenchResult<f64>], threshold: f64) -> Vec<BenchComparison<f64>> {
    BenchComparison::compare_sets(b, c, threshold, &delta, f64::NAN)
}

fn speedup(comp: &BenchComparison<f64>) -> Option<f64> {
    match (&comp.baseline, &comp.current) {
        (Some(b), Some(c)) if b.mean_ns > 0.0 => Some(b.mean_ns / c.mean_ns),
        _ => None,
    }
}

fn ns(m: &f64) -> String {
    format!("{:.0}", m)
}

fn pct(p: &f64) -> String {
    format!("{:+.1}", p)
}

#[test]
fn compare_improved() {
    let b = make_result("foo", 1000.0, 10.0);
    let c = make_result("foo", 800.0, 10.0);
    let comp = compare(&b, &c, 5.0);
    assert!(matches!(comp.outcome, ComparisonOutcome::Improved { .. }));
    assert_eq!(comp.change_percent, -20.0);
    assert!(speedup(&comp).unwrap() > 1.0);
}

#[test]
fn compare_regressed() {
    let b = make_result("foo", 1000.0, 10.0);
    let c = make_result("foo", 1200.0, 10.0);
    let comp = compare(&b, &c, 5.0);
    assert!(matches!(comp.outcome, ComparisonOutcome::Regressed { .. }));
    assert_eq!(comp.change_percent, 20.0);
}

#[test]
fn compare_unchanged() {
    let b = make_result("foo", 1000.0, 10.0);
    let c = make_result("foo", 1020.0, 10.0);
    let comp = compare(&b, &c, 5.0);
    assert!(matches!(comp.outcome, ComparisonOutcome::Unchanged { .. }));
}

#[test]
fn compare_sets_mixed() {
    let baseline = vec![
        make_result("a", 1000.0, 10.0),
        make_result("b", 2000.0, 20.0),
        make_result("c", 3000.0, 30.0),
    ];
    let current = vec![
        make_result("a", 900.0, 10.0),  // improved
        make_result("b", 2500.0, 20.0), // regressed
        make_result("d", 500.0, 5.0),   // new
    ];

    let comps = compare_sets(&baseline, &current, 5.0);
    assert_eq!(comps.len(), 4);

    let a = comps.iter().find(|c| c.name == "a").unwrap();
    assert!(matches!(a.outcome, ComparisonOutcome::Improved { .. }));

    let b_comp = comps.iter().find(|c| c.name == "b").unwrap();
    assert!(matches!(b_comp.outcome, ComparisonOutcome::Regressed { .. }));

    let c_comp = comps.iter().find(|c| c.name == "c").unwrap();
    assert!(matches!(c_comp.outcome, ComparisonOutcome::OnlyInOne { .. }));

    let d = comps.iter().find(|c| c.name == "d").unwrap();
    assert!(matches!(d.outcome, ComparisonOutcome::OnlyInOne { .. }));
}

#[test]
fn compare_sets_orders_by_name_and_tells_which_run() {
    let baseline = vec![make_result("zeta", 1.0, 0.0), make_result("Beta", 1.0, 0.0)];
    let current = vec![make_result("alpha", 1.0, 0.0), make_result("zeta", 1.0, 0.0)];
    let comps = compare_sets(&baseline, &current, 5.0);
    let names: Vec<&str> = comps.iter().map(|c| c.name.as_str()).collect();
    assert_eq!(names, vec!["Beta", "alpha", "zeta"]);
    assert_eq!(comps[0].outcome, ComparisonOutcome::OnlyInOne { which: "baseline".to_string() });
    assert!(comps[0].current.is_none());
    assert!(comps[0].change_percent.is_nan());
    assert!(comps[0].confidence_interval.is_nan());
    assert_eq!(comps[1].outcome, ComparisonOutcome::OnlyInOne { which: "current".to_string() });
    assert!(comps[1].baseline.is_none());
    assert_eq!(comps[2].outcome, ComparisonOutcome::Unchanged { percent: 0.0 });
}

#[test]
fn compare_sets_uses_last_result_of_a_name() {
    let baseline = vec![make_result("x", 100.0, 0.0), make_result("x", 200.0, 0.0)];
    let current = vec![make_result("x", 300.0, 0.0)];
    let comps = compare_sets(&baseline, &current, 5.0);
    assert_eq!(comps.len(), 1);
    assert_eq!(comps[0].baseline.as_ref().unwrap().mean_ns, 200.0);
    assert_eq!(comps[0].change_percent, 50.0);
    assert!(compare_sets(&[], &[], 5.0).is_empty());
}

#[test]
fn confidence_interval_combines_relative_errors() {
    let b = make_result("foo", 100.0, 3.0);
    let c = make_result("foo", 100.0, 4.0);
    let comp = compare(&b, &c, 5.0);
    assert!((comp.confidence_interval - 5.0).abs() < 1e-9);
    assert_eq!(comp.name, "foo");
    assert_eq!(comp.baseline, Some(b));
    assert_eq!(comp.current, Some(c));
}

#[test]
fn classify_checks_improvement_first() {
    assert_eq!(ComparisonOutcome::classify(1.5, true, true), ComparisonOutcome::Improved { percent: 1.5 });
    assert_eq!(ComparisonOutcome::classify(1.5, false, true), ComparisonOutcome::Regressed { percent: 1.5 });
    assert_eq!(ComparisonOutcome::classify(1.5, false, false), ComparisonOutcome::Unchanged { percent: 1.5 });
}

#[test]
fn detects_regression() {
    let detector = RegressionDetector::new(10.0);
    let baseline = vec![make_result("foo", 1000.0, 10.0)];
    let current = vec![make_result("foo", 1200.0, 10.0)]; // +20%
    let regressions = detector.detect(&baseline, &current, &delta, f64::NAN);
    assert_eq!(regressions.len(), 1);
    assert_eq!(regressions[0].name, "foo");
}

#[test]
fn no_regression_when_improved() {
    let detector = RegressionDetector::new(10.0);
    let baseline = vec![make_result("foo", 1000.0, 10.0)];
    let current = vec![make_result("foo", 800.0, 10.0)]; // -20%
    assert!(!detector.has_regressions(&baseline, &current, &delta, f64::NAN));
}

#[test]
fn no_regression_within_threshold() {
    let detector = RegressionDetector::new(10.0);
    let baseline = vec![make_result("foo", 1000.0, 10.0)];
    let current = vec![make_result("foo", 1050.0, 10.0)]; // +5%
    assert!(!detector.has_regressions(&baseline, &current, &delta, f64::NAN));
}

#[test]
fn multiple_regressions() {
    let detector = RegressionDetector::new(5.0);
    let baseline = vec![
        make_result("a", 1000.0, 10.0),
        make_result("b", 2000.0, 10.0),
        make_result("c", 3000.0, 10.0),
    ];
    let current = vec![
        make_result("a", 1100.0, 10.0), // +10%
        make_result("b", 2200.0, 10.0), // +10%
        make_result("c", 2800.0, 10.0), // improved
    ];
    let regressions = detector.detect(&baseline, &current, &delta, f64::NAN);
    assert_eq!(regressions.len(), 2);
}

#[test]
fn one_sided_benchmarks_are_never_regressions() {
    let detector = RegressionDetector::new(5.0);
    let baseline = vec![make_result("gone", 1.0, 0.0)];
    let current = vec![make_result("new", 1_000_000.0, 0.0)];
    assert!(detector.detect(&baseline, &current, &delta, f64::NAN).is_empty());
    assert!(detector.has_regressions(&[make_result("s", 1.0, 0.0)], &[make_result("s", 2.0, 0.0)], &delta, f64::NAN));
}

#[test]
fn report_contains_all_sections() {
    let baseline = vec![make_result("a", 1000.0, 10.0), make_result("b", 2000.0, 10.0)];
    let current = vec![make_result("a", 800.0, 10.0), make_result("b", 2500.0, 10.0)];
    let comps = compare_sets(&baseline, &current, 5.0);
    let report = BenchReport::generate(&comps, &ns, &pct);

    assert!(report.contains("# Benchmark Report"));
    assert!(report.contains("🟢"));
    assert!(report.contains("🔴"));
    assert!(report.contains("| a |"));
}

#[test]
fn report_exact_text() {
    let baseline = vec![make_result("a", 1000.0, 10.0), make_result("gone", 5.0, 0.0)];
    let current = vec![make_result("a", 1020.0, 10.0)];
    let comps = compare_sets(&baseline, &current, 5.0);
    let report = BenchReport::generate(&comps, &ns, &pct);
    let expected = "# Benchmark Report\n\n\
**Summary:** 0 🟢 improved | 1 🟡 unchanged | 0 🔴 regressed | 1 ➖ only in one run\n\n\
| Benchmark | Baseline | Current | Change | Status |\n\
|-----------|----------|---------|--------|--------|\n\
| a | 1000 ns | 1020 ns | +2.0% | 🟡 |\n\
| gone | 5 ns | — | only in baseline | ➖ |\n";
    assert_eq!(report, expected);
}

#[test]
fn report_counts_beyond_nine() {
    let baseline: Vec<BenchResult<f64>> = (0..12).map(|i| make_result(&format!("b{:02}", i), 100.0, 0.0)).collect();
    let current: Vec<BenchResult<f64>> = (0..12).map(|i| make_result(&format!("b{:02}", i), 200.0, 0.0)).collect();
    let comps = compare_sets(&baseline, &current, 5.0);
    let report = BenchReport::generate(&comps, &ns, &pct);
    assert!(report.contains("**Summary:** 0 🟢 improved | 0 🟡 unchanged | 12 🔴 regressed\n\n"));
    assert_eq!(BenchReport::summary(&comps), "⚠️ 12 regression(s) detected out of 12 benchmarks");
}

#[test]
fn summary_no_regressions() {
    let baseline = vec![make_result("a", 1000.0, 10.0)];
    let current = vec![make_result("a", 900.0, 10.0)];
    let comps = compare_sets(&baseline, &current, 5.0);
    let summary = BenchReport::summary(&comps);
    assert!(summary.contains("No regressions"));
    assert_eq!(summary, "✅ No regressions across 1 benchmarks (1 improved)");
}

#[test]
fn summary_with_regressions() {
    let baseline = vec![make_result("a", 1000.0, 10.0)];
    let current = vec![make_result("a", 1200.0, 10.0)];
    let comps = compare_sets(&baseline, &current, 5.0);
    let summary = BenchReport::summary(&comps);
    assert!(summary.contains("regression"));
}

#[test]
fn summary_all_unchanged() {
    let comps: Vec<BenchComparison<f64>> = Vec::new();
    assert_eq!(BenchReport::summary(&comps), "✅ All 0 benchmarks unchanged");
    let comps = compare_sets(&[make_result("a", 100.0, 0.0)], &[make_result("a", 101.0, 0.0)], 5.0);
    assert_eq!(BenchReport::summary(&comps), "✅ All 1 benchmarks unchanged");
}

#[test]
fn detected_are_all_regressed_and_in_name_order() {
    let detector = RegressionDetector::new(5.0);
    let baseline = vec![make_result("z", 100.0, 0.0), make_result("m", 100.0, 0.0), make_result("a", 100.0, 0.0)];
    let current = vec![make_result("z", 150.0, 0.0), make_result("m", 90.0, 0.0), make_result("a", 130.0, 0.0)];
    let found = detector.detect(&baseline, &current, &delta, f64::NAN);
    let names: Vec<&str> = found.iter().map(|c| c.name.as_str()).collect();
    assert_eq!(names, vec!["a", "z"]);
    assert!(found.iter().all(|c| matches!(c.outcome, ComparisonOutcome::Regressed { .. })));
    assert!(detector.has_regressions(&baseline, &current, &delta, f64::NAN));
    assert_eq!(detector.threshold_percent, 5.0);
}

#[test]
fn result_new_keeps_fields() {
    let r = BenchResult::new("n", 1.5, 2.5, 0.5, 7);
    assert_eq!(r.name, "n");
    assert_eq!((r.mean_ns, r.median_ns, r.stddev_ns, r.iterations), (1.5, 2.5, 0.5, 7));
}

#[test]
fn order_of_inputs_does_not_matter() {
    let baseline = vec![make_result("a", 100.0, 1.0), make_result("b", 200.0, 2.0), make_result("c", 300.0, 3.0)];
    let current = vec![make_result("b", 260.0, 2.0), make_result("a", 90.0, 1.0), make_result("d", 5.0, 0.0)];
    let mut baseline2 = baseline.clone();
    baseline2.reverse();
    let mut current2 = current.clone();
    current2.rotate_left(1);
    let x = compare_sets(&baseline, &current, 5.0);
    let y = compare_sets(&baseline2, &current2, 5.0);
    assert_eq!(x.len(), y.len());
    for (p, q) in x.iter().zip(y.iter()) {
        assert_eq!(p.name, q.name);
        assert_eq!(p.baseline, q.baseline);
        assert_eq!(p.current, q.current);
        assert_eq!(p.outcome, q.outcome);
    }
    let detector = RegressionDetector::new(5.0);
    assert_eq!(
        detector.has_regressions(&baseline, &current, &delta, f64::NAN),
        !detector.detect(&baseline, &current, &delta, f64::NAN).is_empty()
    );
}
