use soma::host::{ManagementStatus, ProbeTarget};
use soma::policy::{Backoff, PolicyError, ProbePolicy};
use soma::probe::{Action, AttemptResult, ProbeBatch, ProbeError, TargetState};
use soma::report::{aggregate, Health, Reachability};

fn named(names: &[&str]) -> Vec<ProbeTarget> {
    names
        .iter()
        .map(|n| ProbeTarget {
            hostname: n.to_string(),
            address: None,
            management_status: ManagementStatus::Managed,
        })
        .collect()
}

fn policy(max_retries: u32, concurrency_limit: usize) -> ProbePolicy {
    ProbePolicy {
        timeout_per_attempt_ms: 2000,
        max_retries,
        backoff: Backoff::Exponential { base_ms: 100, ceiling_ms: 1000 },
        concurrency_limit,
        batch_deadline_ms: 60_000,
    }
}

fn ok(elapsed_ms: u64) -> AttemptResult {
    AttemptResult { elapsed_ms, error: None }
}

fn failed(error: ProbeError) -> AttemptResult {
    AttemptResult { elapsed_ms: 7, error: Some(error) }
}

#[test]
fn zero_concurrency_is_refused() {
    let r = ProbeBatch::new(&named(&["a"]), policy(0, 0), 0);
    assert_eq!(r.err(), Some(PolicyError::ZeroConcurrency));
    assert_eq!(policy(0, 0).validate(), Err(PolicyError::ZeroConcurrency));
    assert_eq!(policy(0, 1).validate(), Ok(()));
}

#[test]
fn backoff_delays() {
    let fixed = Backoff::Fixed { delay_ms: 250 };
    assert_eq!(fixed.delay(1), 250);
    assert_eq!(fixed.delay(9), 250);
    let exp = Backoff::Exponential { base_ms: 100, ceiling_ms: 1000 };
    assert_eq!(exp.delay(1), 100);
    assert_eq!(exp.delay(2), 200);
    assert_eq!(exp.delay(3), 400);
    assert_eq!(exp.delay(4), 800);
    assert_eq!(exp.delay(5), 1000);
    assert_eq!(exp.delay(6), 1000);
    assert_eq!(exp.delay(u64::MAX), 1000);
    let low_ceiling = Backoff::Exponential { base_ms: 500, ceiling_ms: 200 };
    assert_eq!(low_ceiling.delay(1), 200);
    assert_eq!(low_ceiling.delay(3), 200);
    let zero = Backoff::Exponential { base_ms: 0, ceiling_ms: 1000 };
    assert_eq!(zero.delay(1), 0);
    assert_eq!(zero.delay(70), 0);
    assert_eq!(zero.delay(u64::MAX), 0);
    // Attempts are counted from one; zero is taken as the first.
    assert_eq!(exp.delay(0), 100);
    assert_eq!(fixed.delay(0), 250);
    let wide = Backoff::Exponential { base_ms: 1, ceiling_ms: u64::MAX };
    assert_eq!(wide.delay(64), 1u64 << 63);
    assert_eq!(wide.delay(65), u64::MAX);
    assert_eq!(wide.delay(1000), u64::MAX);
}

#[test]
fn an_empty_batch_is_finished_at_once() {
    let targets = named(&[]);
    let mut batch = ProbeBatch::new(&targets, policy(3, 4), 10).unwrap();
    assert_eq!(batch.target_count(), 0);
    assert!(batch.is_finished());
    assert_eq!(batch.next_action(10), Action::Finished);
    assert!(batch.outcomes().is_empty());
    assert_eq!(batch.state(0), None);
    let reports = aggregate(batch.outcomes(), &targets).unwrap();
    assert!(reports.is_empty());
}

#[test]
fn a_new_batch_has_every_target_pending() {
    let batch = ProbeBatch::new(&named(&["a", "b"]), policy(1, 1), 500).unwrap();
    assert_eq!(batch.target_count(), 2);
    assert_eq!(batch.deadline_at(), 60_500);
    assert_eq!(batch.policy(), policy(1, 1));
    assert!(!batch.is_finished());
    for i in 0..2 {
        assert_eq!(batch.state(i), Some(TargetState::Pending { attempt: 1, not_before: 500 }));
    }
    assert_eq!(batch.state(2), None);
    let far = ProbePolicy { batch_deadline_ms: u64::MAX, ..policy(0, 1) };
    assert_eq!(ProbeBatch::new(&named(&["a"]), far, 5).unwrap().deadline_at(), u64::MAX);
}

#[test]
fn one_unreachable_host_among_three() {
    let targets = named(&["h1", "h2", "h3"]);
    let mut batch = ProbeBatch::new(&targets, policy(0, 10), 1000).unwrap();
    for i in 0..3 {
        assert_eq!(
            batch.next_action(1000),
            Action::Start { target: i, attempt: 1, timeout_ms: 2000 }
        );
    }
    assert_eq!(batch.next_action(1000), Action::WaitUntil { until: 61_000 });
    assert!(batch.record(0, ok(12), 1012));
    assert!(batch.record(2, ok(15), 1015));
    assert!(batch.record(
        1,
        AttemptResult { elapsed_ms: 2000, error: Some(ProbeError::AttemptTimeout) },
        3000
    ));
    assert_eq!(
        batch.state(1),
        Some(TargetState::Failed { attempt: 1, error: ProbeError::AttemptTimeout })
    );
    assert!(batch.is_finished());
    assert_eq!(batch.next_action(3000), Action::Finished);
    let reports = aggregate(batch.outcomes(), &targets).unwrap();
    assert_eq!(reports.len(), 3);
    assert_eq!(reports[0].hostname, "h1");
    assert_eq!(reports[0].reachability, Reachability::Online);
    assert_eq!(reports[0].health, Health::Healthy);
    assert_eq!(reports[0].last_seen, Some(1012));
    assert_eq!(reports[0].error, None);
    assert_eq!(reports[1].hostname, "h2");
    assert_eq!(reports[1].reachability, Reachability::Offline);
    assert_eq!(reports[1].health, Health::Unreachable);
    assert_eq!(reports[1].error, Some(ProbeError::AttemptTimeout));
    assert_eq!(reports[1].last_seen, None);
    assert_eq!(reports[2].hostname, "h3");
    assert_eq!(reports[2].reachability, Reachability::Online);
    assert_eq!(reports[2].last_seen, Some(1015));
}

#[test]
fn a_failing_target_is_tried_max_retries_plus_one_times() {
    let targets = named(&["down"]);
    let mut batch = ProbeBatch::new(&targets, policy(2, 4), 0).unwrap();
    assert_eq!(batch.next_action(0), Action::Start { target: 0, attempt: 1, timeout_ms: 2000 });
    assert_eq!(batch.state(0), Some(TargetState::InFlight { attempt: 1, started_at: 0 }));
    assert!(batch.record(0, failed(ProbeError::ConnectionRefused), 10));
    assert_eq!(batch.state(0), Some(TargetState::Pending { attempt: 2, not_before: 110 }));
    assert_eq!(batch.next_action(10), Action::WaitUntil { until: 110 });
    assert_eq!(batch.next_action(109), Action::WaitUntil { until: 110 });
    assert_eq!(batch.next_action(110), Action::Start { target: 0, attempt: 2, timeout_ms: 2000 });
    assert!(batch.record(0, failed(ProbeError::NetworkUnreachable), 120));
    assert_eq!(batch.state(0), Some(TargetState::Pending { attempt: 3, not_before: 320 }));
    assert_eq!(batch.next_action(400), Action::Start { target: 0, attempt: 3, timeout_ms: 2000 });
    assert!(batch.record(0, failed(ProbeError::DnsResolutionFailure), 410));
    assert_eq!(
        batch.state(0),
        Some(TargetState::Failed { attempt: 3, error: ProbeError::DnsResolutionFailure })
    );
    assert_eq!(batch.next_action(410), Action::Finished);
    let attempts: Vec<u64> = batch.outcomes().iter().map(|o| o.attempt_number).collect();
    assert_eq!(attempts, vec![1, 2, 3]);
    assert!(batch.outcomes().iter().all(|o| o.attempt_number <= 2 + 1));
    assert!(batch.outcomes().iter().all(|o| !o.reachable && o.target == "down"));
    assert_eq!(batch.outcomes()[1].error, Some(ProbeError::NetworkUnreachable));
    assert_eq!(batch.outcomes()[1].latency_ms, 7);
    assert_eq!(batch.outcomes()[1].observed_at, 120);
    let reports = aggregate(batch.outcomes(), &targets).unwrap();
    assert_eq!(reports[0].reachability, Reachability::Offline);
    assert_eq!(reports[0].error, Some(ProbeError::DnsResolutionFailure));
}

#[test]
fn a_retry_can_succeed() {
    let targets = named(&["flaky"]);
    let mut batch = ProbeBatch::new(&targets, policy(1, 1), 0).unwrap();
    assert_eq!(batch.next_action(0), Action::Start { target: 0, attempt: 1, timeout_ms: 2000 });
    assert!(batch.record(0, failed(ProbeError::AttemptTimeout), 2000));
    assert_eq!(batch.next_action(2100), Action::Start { target: 0, attempt: 2, timeout_ms: 2000 });
    assert!(batch.record(0, ok(33), 2133));
    assert_eq!(batch.state(0), Some(TargetState::Succeeded { attempt: 2 }));
    assert_eq!(batch.next_action(2133), Action::Finished);
    let reports = aggregate(batch.outcomes(), &targets).unwrap();
    assert_eq!(reports[0].reachability, Reachability::Online);
    assert_eq!(reports[0].health, Health::Healthy);
    assert_eq!(reports[0].last_seen, Some(2133));
    assert_eq!(reports[0].error, None);
}

#[test]
fn reports_for_targets_not_in_flight_are_ignored() {
    let mut batch = ProbeBatch::new(&named(&["a", "b"]), policy(0, 1), 0).unwrap();
    assert!(!batch.record(0, ok(1), 1));
    assert!(!batch.record(7, ok(1), 1));
    assert_eq!(batch.next_action(1), Action::Start { target: 0, attempt: 1, timeout_ms: 2000 });
    assert!(!batch.record(1, ok(1), 2));
    assert!(batch.record(0, ok(1), 2));
    assert!(!batch.record(0, ok(1), 3));
    assert_eq!(batch.outcomes().len(), 1);
    assert_eq!(batch.state(0), Some(TargetState::Succeeded { attempt: 1 }));
}

#[test]
fn the_deadline_cuts_off_what_is_not_final() {
    let targets = named(&["done", "flying", "waiting", "retrying"]);
    let p = ProbePolicy { batch_deadline_ms: 1000, ..policy(3, 3) };
    let mut batch = ProbeBatch::new(&targets, p, 100).unwrap();
    assert_eq!(batch.deadline_at(), 1100);
    assert_eq!(batch.next_action(100), Action::Start { target: 0, attempt: 1, timeout_ms: 1000 });
    assert_eq!(batch.next_action(100), Action::Start { target: 1, attempt: 1, timeout_ms: 1000 });
    assert!(batch.record(0, ok(5), 105));
    assert_eq!(batch.next_action(300), Action::Start { target: 2, attempt: 1, timeout_ms: 800 });
    assert!(batch.record(2, ok(5), 305));
    assert_eq!(batch.next_action(305), Action::Start { target: 3, attempt: 1, timeout_ms: 795 });
    assert!(batch.record(3, failed(ProbeError::ConnectionRefused), 1050));
    assert_eq!(batch.state(3), Some(TargetState::Pending { attempt: 2, not_before: 1150 }));
    // The retry would be due after the deadline: the wait ends at the deadline.
    assert_eq!(batch.next_action(1050), Action::WaitUntil { until: 1100 });
    assert_eq!(batch.next_action(1099), Action::WaitUntil { until: 1100 });
    assert_eq!(batch.next_action(1100), Action::Finished);
    assert!(batch.is_finished());
    assert_eq!(
        batch.state(1),
        Some(TargetState::Failed { attempt: 1, error: ProbeError::BatchDeadlineExceeded })
    );
    assert_eq!(
        batch.state(3),
        Some(TargetState::Failed { attempt: 1, error: ProbeError::BatchDeadlineExceeded })
    );
    let log = batch.outcomes();
    assert_eq!(log.len(), 5);
    assert_eq!(log[3].target, "flying");
    assert_eq!(log[3].attempt_number, 1);
    assert_eq!(log[3].latency_ms, 1000);
    assert_eq!(log[3].error, Some(ProbeError::BatchDeadlineExceeded));
    assert_eq!(log[3].observed_at, 1100);
    assert_eq!(log[4].target, "retrying");
    assert_eq!(log[4].attempt_number, 1);
    assert_eq!(log[4].latency_ms, 0);
    // A late report changes nothing.
    assert!(!batch.record(1, ok(1), 1101));
    assert_eq!(batch.next_action(5000), Action::Finished);
    assert_eq!(batch.outcomes().len(), 5);
    let reports = aggregate(batch.outcomes(), &targets).unwrap();
    assert_eq!(reports[0].reachability, Reachability::Online);
    assert_eq!(reports[1].reachability, Reachability::Offline);
    assert_eq!(reports[1].error, Some(ProbeError::BatchDeadlineExceeded));
    assert_eq!(reports[2].reachability, Reachability::Online);
    assert_eq!(reports[3].reachability, Reachability::Offline);
    assert_eq!(reports[3].error, Some(ProbeError::BatchDeadlineExceeded));
}

#[test]
fn a_target_never_started_is_cut_off_with_attempt_zero() {
    let targets = named(&["a", "b"]);
    let p = ProbePolicy { batch_deadline_ms: 50, ..policy(0, 1) };
    let mut batch = ProbeBatch::new(&targets, p, 0).unwrap();
    assert_eq!(batch.next_action(0), Action::Start { target: 0, attempt: 1, timeout_ms: 50 });
    assert_eq!(batch.next_action(0), Action::WaitUntil { until: 50 });
    assert_eq!(batch.next_action(60), Action::Finished);
    assert_eq!(
        batch.state(1),
        Some(TargetState::Failed { attempt: 0, error: ProbeError::BatchDeadlineExceeded })
    );
    assert_eq!(batch.outcomes()[1].attempt_number, 0);
    let reports = aggregate(batch.outcomes(), &targets).unwrap();
    assert_eq!(reports.len(), 2);
    assert!(reports.iter().all(|r| r.reachability == Reachability::Offline));
}

#[test]
fn no_retry_after_the_deadline() {
    let p = ProbePolicy { batch_deadline_ms: 100, ..policy(5, 1) };
    let mut batch = ProbeBatch::new(&named(&["a"]), p, 0).unwrap();
    assert_eq!(batch.next_action(0), Action::Start { target: 0, attempt: 1, timeout_ms: 100 });
    assert!(batch.record(0, failed(ProbeError::AttemptTimeout), 100));
    assert_eq!(
        batch.state(0),
        Some(TargetState::Failed { attempt: 1, error: ProbeError::AttemptTimeout })
    );
    assert_eq!(batch.next_action(100), Action::Finished);
}

#[test]
fn a_zero_deadline_finishes_without_probing() {
    let targets = named(&["a", "b", "c"]);
    let p = ProbePolicy { batch_deadline_ms: 0, ..policy(2, 2) };
    let mut batch = ProbeBatch::new(&targets, p, 77).unwrap();
    assert_eq!(batch.next_action(77), Action::Finished);
    assert_eq!(batch.outcomes().len(), 3);
    let reports = aggregate(batch.outcomes(), &targets).unwrap();
    assert_eq!(reports.len(), 3);
    for (report, name) in reports.iter().zip(["a", "b", "c"]) {
        assert_eq!(report.hostname, name);
        assert_eq!(report.error, Some(ProbeError::BatchDeadlineExceeded));
    }
}

#[test]
fn fifty_targets_ten_at_a_time_take_five_rounds() {
    let names: Vec<String> = (0..50).map(|i| format!("host{}", i)).collect();
    let name_refs: Vec<&str> = names.iter().map(|n| n.as_str()).collect();
    let targets = named(&name_refs);
    let mut batch = ProbeBatch::new(&targets, policy(0, 10), 0).unwrap();
    let mut now = 0u64;
    let mut rounds = 0;
    let mut most_in_flight = 0usize;
    loop {
        let mut started: Vec<usize> = Vec::new();
        let finished = loop {
            match batch.next_action(now) {
                Action::Start { target, attempt, timeout_ms } => {
                    assert_eq!(attempt, 1);
                    assert_eq!(timeout_ms, 2000);
                    started.push(target);
                },
                Action::WaitUntil { until } => {
                    assert_eq!(until, 60_000);
                    break false;
                },
                Action::Finished => break true,
            }
        };
        if finished {
            assert!(started.is_empty());
            break;
        }
        let expected: Vec<usize> = (rounds * 10..rounds * 10 + 10).collect();
        assert_eq!(started, expected);
        most_in_flight = most_in_flight.max(started.len());
        now += 100;
        for target in started {
            assert!(batch.record(target, ok(100), now));
        }
        rounds += 1;
    }
    assert_eq!(rounds, 5);
    assert_eq!(now, 500);
    assert_eq!(most_in_flight, 10);
    let reports = aggregate(batch.outcomes(), &targets).unwrap();
    assert_eq!(reports.len(), 50);
    for (i, report) in reports.iter().enumerate() {
        assert_eq!(report.hostname, format!("host{}", i));
        assert_eq!(report.reachability, Reachability::Online);
    }
}

#[test]
fn a_freed_slot_goes_to_the_first_ready_target() {
    let mut batch = ProbeBatch::new(&named(&["a", "b", "c"]), policy(1, 2), 0).unwrap();
    assert_eq!(batch.next_action(0), Action::Start { target: 0, attempt: 1, timeout_ms: 2000 });
    assert_eq!(batch.next_action(0), Action::Start { target: 1, attempt: 1, timeout_ms: 2000 });
    assert_eq!(batch.next_action(0), Action::WaitUntil { until: 60_000 });
    assert!(batch.record(0, failed(ProbeError::ConnectionRefused), 5));
    // Target 0 waits for its backoff; target 2 is ready and takes the slot.
    assert_eq!(batch.next_action(5), Action::Start { target: 2, attempt: 1, timeout_ms: 2000 });
    assert_eq!(batch.next_action(5), Action::WaitUntil { until: 60_000 });
    assert!(batch.record(1, ok(1), 6));
    assert_eq!(batch.next_action(6), Action::WaitUntil { until: 105 });
    assert_eq!(batch.next_action(105), Action::Start { target: 0, attempt: 2, timeout_ms: 2000 });
}

#[test]
fn the_retry_instant_saturates() {
    let p = ProbePolicy {
        backoff: Backoff::Fixed { delay_ms: u64::MAX },
        batch_deadline_ms: u64::MAX,
        ..policy(1, 1)
    };
    let mut batch = ProbeBatch::new(&named(&["a"]), p, 10).unwrap();
    assert_eq!(batch.deadline_at(), u64::MAX);
    assert_eq!(batch.next_action(10), Action::Start { target: 0, attempt: 1, timeout_ms: 2000 });
    assert!(batch.record(0, failed(ProbeError::AttemptTimeout), 20));
    assert_eq!(batch.state(0), Some(TargetState::Pending { attempt: 2, not_before: u64::MAX }));
    assert_eq!(batch.next_action(20), Action::WaitUntil { until: u64::MAX });
}

#[test]
fn a_batch_reports_every_target_in_request_order() {
    let targets = named(&["h1", "h2", "h3"]);
    let mut batch = ProbeBatch::new(&targets, policy(0, 10), 1000).unwrap();
    // Before anything was tried nothing is known.
    let early = batch.reports();
    assert_eq!(early.len(), 3);
    assert!(early.iter().all(|r| r.reachability == Reachability::Unknown));
    assert!(early.iter().all(|r| r.health == Health::Unreachable));
    for _ in 0..3 {
        batch.next_action(1000);
    }
    batch.record(2, ok(15), 1015);
    batch.record(0, ok(12), 1012);
    batch.record(1, AttemptResult { elapsed_ms: 2000, error: Some(ProbeError::AttemptTimeout) }, 3000);
    assert_eq!(batch.next_action(3000), Action::Finished);
    let reports = batch.reports();
    let names: Vec<&str> = reports.iter().map(|r| r.hostname.as_str()).collect();
    assert_eq!(names, vec!["h1", "h2", "h3"]);
    assert_eq!(reports[0].reachability, Reachability::Online);
    assert_eq!(reports[1].reachability, Reachability::Offline);
    assert_eq!(reports[1].error, Some(ProbeError::AttemptTimeout));
    assert_eq!(reports[2].reachability, Reachability::Online);
    assert_eq!(reports[2].last_seen, Some(1015));
    // The same reports as the aggregator gives for the batch's log.
    let again = aggregate(batch.outcomes(), &targets).unwrap();
    for (a, b) in reports.iter().zip(again.iter()) {
        assert_eq!(a.hostname, b.hostname);
        assert_eq!(a.reachability, b.reachability);
        assert_eq!(a.health, b.health);
        assert_eq!(a.last_seen, b.last_seen);
        assert_eq!(a.error, b.error);
    }
}

#[test]
fn a_batch_without_targets_reports_nothing() {
    let batch = ProbeBatch::new(&named(&[]), policy(0, 1), 0).unwrap();
    assert!(batch.reports().is_empty());
}

#[test]
fn targets_of_one_name_share_their_report() {
    let targets = named(&["twin", "other", "twin"]);
    let mut batch = ProbeBatch::new(&targets, policy(0, 3), 0).unwrap();
    for _ in 0..3 {
        batch.next_action(0);
    }
    batch.record(0, failed(ProbeError::ConnectionRefused), 5);
    batch.record(1, ok(1), 6);
    batch.record(2, ok(1), 7);
    let reports = batch.reports();
    assert_eq!(reports.len(), 3);
    assert_eq!(reports[0].hostname, "twin");
    assert_eq!(reports[0].reachability, Reachability::Online);
    assert_eq!(reports[2].hostname, "twin");
    assert_eq!(reports[2].reachability, Reachability::Online);
    assert_eq!(reports[0].last_seen, Some(7));
}
