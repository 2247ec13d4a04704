use bench_compare::{BenchHistory, BenchResult, Timestamp};

fn make_result(name: &str, mean: f64) -> BenchResult<f64> {
    BenchResult::new(name, mean, mean, 10.0, 100)
}

#[test]
fn add_and_latest() {
    let mut history = BenchHistory::new();
    history.add(vec![make_result("foo", 1000.0)], Some("v1".into()));
    history.add(vec![make_result("foo", 900.0)], Some("v2".into()));
    assert_eq!(history.len(), 2);
    assert_eq!(history.latest().unwrap().label.as_deref(), Some("v2"));
    assert_eq!(history.previous().unwrap().label.as_deref(), Some("v1"));
}

#[test]
fn get_history_for_benchmark() {
    let mut history = BenchHistory::new();
    history.add(vec![make_result("foo", 1000.0), make_result("bar", 500.0)], None);
    history.add(vec![make_result("foo", 900.0), make_result("bar", 600.0)], None);

    let foo_history = history.get_history_for("foo");
    assert_eq!(foo_history.len(), 2);
    assert_eq!(foo_history[0].1.mean_ns, 1000.0);
    assert_eq!(foo_history[1].1.mean_ns, 900.0);
}

#[test]
fn add_stamps_the_current_time() {
    let mut history: BenchHistory<f64> = BenchHistory::new();
    history.add(vec![], None);
    let stamp = history.latest().unwrap().timestamp;
    // any run of these tests happens after 2020-01-01
    assert!(stamp.secs > 1_577_836_800);
    assert!(stamp.nanos < 1_000_000_000);
}

#[test]
fn add_at_keeps_the_given_timestamp() {
    let mut history = BenchHistory::default();
    let t = Timestamp { secs: 42, nanos: 7 };
    history.add_at(t, vec![make_result("x", 1.0)], Some("l".to_string()));
    let e = history.latest().unwrap();
    assert_eq!(e.timestamp, t);
    assert_eq!(e.label.as_deref(), Some("l"));
    assert_eq!(e.results, vec![make_result("x", 1.0)]);
}

#[test]
fn latest_and_previous_on_short_histories() {
    let mut history: BenchHistory<f64> = BenchHistory::new();
    assert!(history.is_empty());
    assert!(history.latest().is_none());
    assert!(history.previous().is_none());
    history.add_at(Timestamp { secs: 1, nanos: 0 }, vec![], Some("only".into()));
    assert!(!history.is_empty());
    assert_eq!(history.latest().unwrap().label.as_deref(), Some("only"));
    assert!(history.previous().is_none());
}

#[test]
fn history_for_takes_first_match_and_skips_entries_without_it() {
    let mut history = BenchHistory::new();
    history.add_at(Timestamp { secs: 1, nanos: 0 }, vec![make_result("foo", 1.0), make_result("foo", 2.0)], None);
    history.add_at(Timestamp { secs: 2, nanos: 0 }, vec![make_result("bar", 3.0)], None);
    history.add_at(Timestamp { secs: 3, nanos: 0 }, vec![make_result("bar", 4.0), make_result("foo", 5.0)], None);
    let h = history.get_history_for("foo");
    assert_eq!(h.len(), 2);
    assert_eq!(h[0].0, Timestamp { secs: 1, nanos: 0 });
    assert_eq!(h[0].1.mean_ns, 1.0);
    assert_eq!(h[1].0, Timestamp { secs: 3, nanos: 0 });
    assert_eq!(h[1].1.mean_ns, 5.0);
    assert!(history.get_history_for("baz").is_empty());
}
