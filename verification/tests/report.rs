use soma::host::{ManagementStatus, ProbeTarget};
use soma::probe::{ProbeError, ProbeOutcome};
use soma::report::{aggregate, aggregate_by_name, AggregateError, Health, Reachability};

fn named(names: &[&str]) -> Vec<ProbeTarget> {
    names
        .iter()
        .map(|n| ProbeTarget {
            hostname: n.to_string(),
            address: None,
            management_status: ManagementStatus::Unmanaged,
        })
        .collect()
}

fn success(target: &str, attempt: u64, at: u64) -> ProbeOutcome {
    ProbeOutcome {
        target: target.to_string(),
        attempt_number: attempt,
        reachable: true,
        latency_ms: 9,
        error: None,
        observed_at: at,
    }
}

fn failure(target: &str, attempt: u64, error: ProbeError, at: u64) -> ProbeOutcome {
    ProbeOutcome {
        target: target.to_string(),
        attempt_number: attempt,
        reachable: false,
        latency_ms: 9,
        error: Some(error),
        observed_at: at,
    }
}

#[test]
fn no_targets_and_no_outcomes_give_an_empty_report() {
    let reports = aggregate(&Vec::new(), &Vec::new()).unwrap();
    assert!(reports.is_empty());
}

#[test]
fn one_report_per_target_in_request_order() {
    let targets = named(&["c", "a", "b", "a"]);
    let outcomes = vec![
        success("a", 1, 40),
        failure("b", 1, ProbeError::ConnectionRefused, 41),
        success("c", 1, 42),
    ];
    let reports = aggregate(&outcomes, &targets).unwrap();
    let names: Vec<&str> = reports.iter().map(|r| r.hostname.as_str()).collect();
    assert_eq!(names, vec!["c", "a", "b", "a"]);
    assert_eq!(reports[0].last_seen, Some(42));
    assert_eq!(reports[1].reachability, Reachability::Online);
    assert_eq!(reports[3].reachability, Reachability::Online);
    assert_eq!(reports[3].last_seen, Some(40));
    assert_eq!(reports[2].reachability, Reachability::Offline);
}

#[test]
fn a_target_without_outcomes_is_unknown() {
    let reports = aggregate(&vec![success("a", 1, 5)], &named(&["a", "b"])).unwrap();
    assert_eq!(reports[1].hostname, "b");
    assert_eq!(reports[1].reachability, Reachability::Unknown);
    assert_eq!(reports[1].health, Health::Unreachable);
    assert_eq!(reports[1].last_seen, None);
    assert_eq!(reports[1].error, None);
}

#[test]
fn the_last_failure_is_the_terminal_error() {
    let outcomes = vec![
        failure("a", 1, ProbeError::AttemptTimeout, 10),
        failure("b", 1, ProbeError::NetworkUnreachable, 11),
        failure("a", 2, ProbeError::ConnectionRefused, 12),
        failure("a", 3, ProbeError::DnsResolutionFailure, 13),
        failure("b", 2, ProbeError::BatchDeadlineExceeded, 14),
    ];
    let reports = aggregate(&outcomes, &named(&["a", "b"])).unwrap();
    assert_eq!(reports[0].reachability, Reachability::Offline);
    assert_eq!(reports[0].health, Health::Unreachable);
    assert_eq!(reports[0].error, Some(ProbeError::DnsResolutionFailure));
    assert_eq!(reports[0].last_seen, None);
    assert_eq!(reports[1].error, Some(ProbeError::BatchDeadlineExceeded));
}

#[test]
fn last_seen_is_the_latest_success() {
    let outcomes = vec![
        failure("a", 1, ProbeError::AttemptTimeout, 10),
        success("a", 2, 90),
        success("a", 3, 70),
        failure("a", 4, ProbeError::AttemptTimeout, 95),
    ];
    let reports = aggregate(&outcomes, &named(&["a"])).unwrap();
    assert_eq!(reports[0].reachability, Reachability::Online);
    assert_eq!(reports[0].health, Health::Healthy);
    assert_eq!(reports[0].last_seen, Some(90));
    assert_eq!(reports[0].error, None);
}

#[test]
fn an_outcome_for_a_target_not_requested_is_a_structural_error() {
    let outcomes = vec![success("a", 1, 1), success("x", 1, 2), success("y", 1, 3)];
    let r = aggregate(&outcomes, &named(&["a", "b"]));
    assert_eq!(r.err(), Some(AggregateError::UnknownTarget { index: 1 }));
    let none_requested = aggregate(&vec![success("a", 1, 1)], &Vec::new());
    assert_eq!(none_requested.err(), Some(AggregateError::UnknownTarget { index: 0 }));
}

#[test]
fn an_inconsistent_outcome_is_a_structural_error() {
    let mut with_error = success("a", 1, 1);
    with_error.error = Some(ProbeError::AttemptTimeout);
    let r = aggregate(&vec![success("a", 1, 0), with_error], &named(&["a"]));
    assert_eq!(r.err(), Some(AggregateError::InconsistentOutcome { index: 1 }));
    let mut without_error = failure("zzz", 1, ProbeError::AttemptTimeout, 1);
    without_error.error = None;
    let r = aggregate(&vec![without_error], &named(&["a"]));
    assert_eq!(r.err(), Some(AggregateError::InconsistentOutcome { index: 0 }));
}

#[test]
fn report_clone_keeps_every_field() {
    let reports = aggregate(&vec![success("a", 1, 5)], &named(&["a"])).unwrap();
    let copy = reports[0].clone();
    assert_eq!(copy.hostname, "a");
    assert_eq!(copy.reachability, Reachability::Online);
    assert_eq!(copy.health, Health::Healthy);
    assert_eq!(copy.last_seen, Some(5));
    assert_eq!(copy.error, None);
}

#[test]
fn aggregation_by_name() {
    let names = vec!["b".to_string(), "a".to_string()];
    let outcomes = vec![success("a", 1, 3), failure("b", 1, ProbeError::AttemptTimeout, 4)];
    let reports = aggregate_by_name(&outcomes, &names).unwrap();
    assert_eq!(reports.len(), 2);
    assert_eq!(reports[0].hostname, "b");
    assert_eq!(reports[0].reachability, Reachability::Offline);
    assert_eq!(reports[1].hostname, "a");
    assert_eq!(reports[1].reachability, Reachability::Online);
    let r = aggregate_by_name(&outcomes, &vec!["a".to_string()]);
    assert_eq!(r.err(), Some(AggregateError::UnknownTarget { index: 1 }));
}
