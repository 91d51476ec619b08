use calibre::metrics::{
    json_escape, json_report, sorted_copy, summarize_latencies, LatencySummary, RunMetrics,
    WireCounters, WireSnapshot,
};

fn pair(key: &str, value: &str) -> (String, String) {
    (key.to_owned(), value.to_owned())
}

#[test]
fn snapshots_merge_without_losing_phases() {
    let mut first = RunMetrics::new();
    first.record_request(10, 5);
    first.record_latency_us("finality", 30);

    let mut second = RunMetrics::new();
    second.record_request(20, 7);
    second.record_latency_us("finality", 10);
    second.record_latency_us("reject", 9);

    first.merge(&second);
    assert_eq!(first.wire_snapshot().requests, 2);
    assert_eq!(first.wire_snapshot().bytes_sent, 30);
    assert_eq!(first.phase_summary("finality").unwrap().p50_us, 10);
    assert_eq!(first.phase_summary("reject").unwrap().max_us, 9);
}

#[test]
fn finite_sample_percentiles_use_nearest_rank() {
    assert_eq!(summarize_latencies(&vec![]), None);
    assert_eq!(
        summarize_latencies(&vec![100, 1, 50, 25, 75]),
        Some(LatencySummary {
            samples: 5,
            p50_us: 50,
            p95_us: 100,
            p99_us: 100,
            max_us: 100,
        })
    );
    assert_eq!(summarize_latencies(&vec![1, 2, 3, 4]).unwrap().p50_us, 2);
}

#[test]
fn json_strings_escape_quotes_slashes_controls_and_keep_unicode() {
    assert_eq!(
        json_escape("CALIBRE \"A\"\\B\n\t\u{0001} Κ"),
        "CALIBRE \\\"A\\\"\\\\B\\n\\t\\u0001 Κ"
    );
}

#[test]
fn json_output_is_compact_sorted_and_deterministic() {
    let mut metrics = RunMetrics::new();
    metrics.record_request(10, 5);
    metrics.record_latency_us("finality", 30);
    metrics.record_latency_us("finality", 10);
    metrics.record_latency_us("accept\"phase", 7);

    let actual = json_report(
        &metrics,
        &vec![pair("z", "line\n"), pair("a", "quote\"")],
        &vec![("z".to_owned(), false), ("a".to_owned(), true)],
        &vec![pair("z", "2"), pair("a", "1.25")],
    );
    assert_eq!(
        actual,
        "{\"metadata\":{\"a\":\"quote\\\"\",\"z\":\"line\\n\"},\"gates\":{\"a\":true,\"z\":false},\"metrics\":{\"a\":1.25,\"z\":2},\"wire\":{\"requests\":1,\"bytes_sent\":10,\"bytes_received\":5},\"latency_us\":{\"accept\\\"phase\":{\"samples\":1,\"p50\":7,\"p95\":7,\"p99\":7,\"max\":7},\"finality\":{\"samples\":2,\"p50\":10,\"p95\":30,\"p99\":30,\"max\":30}}}"
    );
    assert!(!actual.contains('\n'));
}

#[test]
fn later_entries_of_a_report_replace_earlier_ones() {
    let report = json_report(
        &RunMetrics::new(),
        &vec![pair("k", "first"), pair("k", "second")],
        &vec![],
        &vec![],
    );
    assert!(report.contains("\"k\":\"second\""));
    assert!(!report.contains("first"));
}

#[test]
fn counters_saturate_instead_of_wrapping() {
    let mut counters = WireCounters::new();
    counters.record_request(u64::MAX, 3);
    counters.record_request(1, u64::MAX);
    assert_eq!(
        counters.snapshot(),
        WireSnapshot { requests: 2, bytes_sent: u64::MAX, bytes_received: u64::MAX }
    );
}

#[test]
fn counters_merge_by_adding() {
    let mut a = WireCounters::new();
    a.increment_requests();
    a.add_bytes_sent(5);
    let mut b = WireCounters::new();
    b.add_bytes_received(7);
    b.increment_requests();
    a.merge(&b);
    assert_eq!(a.snapshot(), WireSnapshot { requests: 2, bytes_sent: 5, bytes_received: 7 });
}

#[test]
fn elapsed_time_is_recorded_in_microseconds() {
    let mut metrics = RunMetrics::new();
    metrics.record_latency("wire", 123);
    metrics.record_latency("huge", u128::MAX);
    assert_eq!(metrics.phase_summary("wire").unwrap().max_us, 123);
    assert_eq!(metrics.phase_summary("huge").unwrap().max_us, u64::MAX);
    assert!(metrics.phase_summary("absent").is_none());
    let names: Vec<String> = metrics.phase_summaries().into_iter().map(|p| p.0).collect();
    assert_eq!(names, ["huge", "wire"]);
}

#[test]
fn sorting_keeps_every_sample() {
    assert_eq!(sorted_copy(&vec![3, 1, 2, 3, 0]), [0, 1, 2, 3, 3]);
}

#[test]
fn escaping_works_part_by_part() {
    let (a, b) = ("quote\" and \\", "tab\t, bell\u{7} and \u{e9}");
    let joined = format!("{a}{b}");
    assert_eq!(json_escape(&joined), format!("{}{}", json_escape(a), json_escape(b)));
    assert_eq!(json_escape(b), "tab\\t, bell\\u0007 and \u{e9}");
    assert_eq!(json_escape("plain / text"), "plain / text");
}
