use blocklist_merge::check_status;
use blocklist_merge::fetched_outcome;
use blocklist_merge::is_success_status;
use blocklist_merge::merge::aggregate;
use blocklist_merge::merge::header_for;
use blocklist_merge::merge::separator_line;
use blocklist_merge::merge::FetchError;
use blocklist_merge::merge::FetchOutcome;

const SEP: &str = "********************--************************";

fn fetched(name: &str, lines: &[&str]) -> FetchOutcome {
    FetchOutcome::Fetched {
        name: name.to_string(),
        lines: lines.iter().map(|l| l.to_string()).collect(),
    }
}

fn failed_http(name: &str, status: u16) -> FetchOutcome {
    FetchOutcome::Failed {
        error: FetchError::HttpStatus { name: name.to_string(), status },
    }
}

fn failed_network(name: &str, cause: &str) -> FetchOutcome {
    FetchOutcome::Failed {
        error: FetchError::Network { name: name.to_string(), cause: cause.to_string() },
    }
}

#[test]
fn synthetic_marker_builders() {
    assert_eq!(header_for(&"AdAway".to_string()), "Blocklist -> AdAway");
    assert_eq!(separator_line(), SEP);
}

#[test]
fn partial_failure_isolation() {
    let outcomes = vec![
        fetched("A", &["a.com", "b.com"]),
        failed_http("B", 500),
        failed_network("C", "timed out"),
    ];
    let report = aggregate(&outcomes);
    let expected = format!("{SEP}\nBlocklist -> A\na.com\nb.com");
    assert_eq!(report.output_text, expected);
    assert!(report.duplicates.is_empty());
    assert_eq!(report.sorted_lines.len(), 4);
}

#[test]
fn failures_alone_yield_empty_output() {
    let outcomes = vec![
        failed_http("B", 500),
        failed_network("C", "connection refused"),
        FetchOutcome::Failed {
            error: FetchError::Decode { name: "D".to_string(), cause: "bad utf-8".to_string() },
        },
        FetchOutcome::Failed {
            error: FetchError::Task { name: "E".to_string(), cause: "panicked".to_string() },
        },
    ];
    let report = aggregate(&outcomes);
    assert_eq!(report.output_text, "");
    assert_eq!(report.sorted_lines.len(), 0);
    assert!(report.duplicates.is_empty());
}

#[test]
fn identical_headers_collapse() {
    let outcomes = vec![fetched("X", &[]), fetched("X", &[])];
    let report = aggregate(&outcomes);
    assert_eq!(
        report.sorted_lines,
        vec![SEP.to_string(), "Blocklist -> X".to_string()]
    );
}

#[test]
fn deterministic_sort_of_merged_content() {
    let outcomes = vec![fetched("X", &["zeta", "alpha"])];
    let report = aggregate(&outcomes);
    let expected = format!("{SEP}\nBlocklist -> X\nalpha\nzeta");
    assert_eq!(report.output_text, expected);
}

#[test]
fn empty_success_case() {
    let report = aggregate(&Vec::new());
    assert_eq!(report.output_text, "");
    assert_eq!(report.sorted_lines.len(), 0);
    assert!(report.duplicates.is_empty());
}

#[test]
fn duplicate_within_one_source_reported_once() {
    let outcomes = vec![fetched("A", &["x", "x", "y"])];
    let report = aggregate(&outcomes);
    assert_eq!(report.duplicates, vec!["x".to_string()]);
    let occurrences = report.sorted_lines.iter().filter(|l| l.as_str() == "x").count();
    assert_eq!(occurrences, 1);
}

#[test]
fn duplicate_across_sources_reported_once() {
    let outcomes = vec![fetched("A", &["x"]), fetched("B", &["x", "z"])];
    let report = aggregate(&outcomes);
    assert_eq!(report.duplicates, vec!["x".to_string()]);
    let occurrences = report.sorted_lines.iter().filter(|l| l.as_str() == "x").count();
    assert_eq!(occurrences, 1);
}

#[test]
fn triple_occurrence_still_reported_once() {
    let outcomes = vec![fetched("A", &["x", "x"]), fetched("B", &["x"])];
    let report = aggregate(&outcomes);
    assert_eq!(report.duplicates, vec!["x".to_string()]);
}

#[test]
fn duplicate_report_is_sorted() {
    let outcomes = vec![fetched("A", &["b", "a"]), fetched("B", &["a", "b"])];
    let report = aggregate(&outcomes);
    assert_eq!(report.duplicates, vec!["a".to_string(), "b".to_string()]);
}

#[test]
fn completion_order_does_not_change_output() {
    let first = vec![
        fetched("A", &["a.com", "shared"]),
        failed_http("B", 404),
        fetched("C", &["c.com", "shared"]),
    ];
    let second = vec![
        fetched("C", &["c.com", "shared"]),
        fetched("A", &["a.com", "shared"]),
        failed_http("B", 404),
    ];
    let r1 = aggregate(&first);
    let r2 = aggregate(&second);
    assert_eq!(r1.output_text, r2.output_text);
    assert_eq!(r1.sorted_lines, r2.sorted_lines);
    assert_eq!(r1.duplicates, r2.duplicates);
}

#[test]
fn headers_and_separators_count_toward_total() {
    let outcomes = vec![fetched("A", &["one"]), fetched("B", &["two"])];
    let report = aggregate(&outcomes);
    assert_eq!(report.sorted_lines.len(), 5);
}

#[test]
fn success_status_range() {
    assert!(is_success_status(200));
    assert!(is_success_status(204));
    assert!(is_success_status(299));
    assert!(!is_success_status(199));
    assert!(!is_success_status(300));
    assert!(!is_success_status(404));
    assert!(!is_success_status(500));
}

#[test]
fn check_status_carries_name_and_status() {
    let name = "Some List".to_string();
    assert!(matches!(check_status(&name, 200), Ok(())));
    match check_status(&name, 500) {
        Err(FetchError::HttpStatus { name: n, status }) => {
            assert_eq!(n, "Some List");
            assert_eq!(status, 500);
        }
        _ => panic!("expected an HTTP status error"),
    }
}

#[test]
fn fetched_outcome_filters_body() {
    let outcome = fetched_outcome("L".to_string(), "# top\nkeep.me\n\n  \nalso.keep\n");
    match outcome {
        FetchOutcome::Fetched { name, lines } => {
            assert_eq!(name, "L");
            assert_eq!(lines, vec!["keep.me".to_string(), "also.keep".to_string()]);
        }
        _ => panic!("expected a successful outcome"),
    }
}

#[test]
fn coincidental_marker_line_is_not_filtered() {
    let outcomes = vec![fetched("A", &[SEP]), fetched("B", &[SEP])];
    let report = aggregate(&outcomes);
    assert_eq!(report.duplicates, vec![SEP.to_string()]);
    let occurrences = report.sorted_lines.iter().filter(|l| l.as_str() == SEP).count();
    assert_eq!(occurrences, 1);
}
