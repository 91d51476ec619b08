use calibre::config::{parse_controller_args, DEFAULT_BENCH_COUNT};

fn strings(values: &[&str]) -> Vec<String> {
    values.iter().map(|value| (*value).to_owned()).collect()
}

#[test]
fn defaults_are_bounded() {
    let config = parse_controller_args(&strings(&[])).unwrap();
    assert_eq!(config.bench_count, DEFAULT_BENCH_COUNT);
    assert!(config.evidence_path.is_none());
}

#[test]
fn supported_arguments_parse_in_either_order() {
    let config = parse_controller_args(&strings(&[
        "--evidence",
        "result.json",
        "--bench-count",
        "128",
    ]))
    .unwrap();
    assert_eq!(config.bench_count, 128);
    assert_eq!(config.evidence_path, Some(String::from("result.json")));
}

#[test]
fn invalid_or_unimplemented_modes_fail_closed() {
    for args in [
        strings(&["--bench-count", "0"]),
        strings(&["--bench-count", "129"]),
        strings(&["--bench-count", "no"]),
        strings(&["--evidence"]),
        strings(&["--campaign"]),
        strings(&["--unknown"]),
    ] {
        assert!(parse_controller_args(&args).is_err(), "accepted {args:?}");
    }
}

#[test]
fn bench_count_bounds_are_inclusive() {
    for (count, value) in [("1", 1), ("128", 128), ("+7", 7), ("007", 7)] {
        let config = parse_controller_args(&strings(&["--bench-count", count])).unwrap();
        assert_eq!(config.bench_count, value);
    }
}

#[test]
fn refused_arguments_are_named() {
    let unknown = parse_controller_args(&strings(&["--unknown"])).unwrap_err();
    assert!(unknown.contains("--unknown"), "{unknown}");
    let missing = parse_controller_args(&strings(&["--bench-count"])).unwrap_err();
    assert!(missing.contains("--bench-count"), "{missing}");
}
