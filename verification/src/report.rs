//! The report aggregator: from the raw outcomes of a batch to one status
//! report for each requested target, in request order.

use vstd::prelude::*;
use crate::host::{target_names, ProbeTarget};
use crate::probe::{
    name_views, outcome_views, BatchView, ProbeError, ProbeOutcome, ProbeOutcomeView,
};

verus! {

/// Whether a target answered.
#[derive(Clone, Copy, Debug, PartialEq, Eq, Structural)]
pub enum Reachability {
    /// An attempt reached the target.
    Online,
    /// Every attempt failed.
    Offline,
    /// No attempt was recorded.
    Unknown,
}

/// The health that a report assigns to a target. The aggregator assigns
/// `Healthy` to targets that answered and `Unreachable` to all others;
/// `Degraded` is for callers that grade an answer further.
#[derive(Clone, Copy, Debug, PartialEq, Eq, Structural)]
pub enum Health {
    Healthy,
    Degraded,
    Unreachable,
}

/// The normalized result of a check for one requested target.
#[derive(Debug)]
pub struct StatusReport {
    pub hostname: String,
    pub reachability: Reachability,
    pub health: Health,
    /// When the target last answered, if it did.
    pub last_seen: Option<u64>,
    /// The error of the last attempt, if every attempt failed.
    pub error: Option<ProbeError>,
}

/// The mathematical value of a [`StatusReport`].
pub struct StatusReportView {
    pub hostname: Seq<char>,
    pub reachability: Reachability,
    pub health: Health,
    pub last_seen: Option<u64>,
    pub error: Option<ProbeError>,
}

impl View for StatusReport {
    type V = StatusReportView;

    open spec fn view(&self) -> StatusReportView {
        StatusReportView {
            hostname: self.hostname@,
            reachability: self.reachability,
            health: self.health,
            last_seen: self.last_seen,
            error: self.error,
        }
    }
}

impl Clone for StatusReport {
    fn clone(&self) -> (r: StatusReport)
        ensures
            r@ == self@,
    {
        StatusReport {
            hostname: self.hostname.clone(),
            reachability: self.reachability,
            health: self.health,
            last_seen: self.last_seen,
            error: self.error,
        }
    }
}

/// What is wrong with the outcomes handed to the aggregator. Both variants
/// point at a fault of the caller, never at a target that failed.
#[derive(Clone, Copy, Debug, PartialEq, Eq, Structural)]
pub enum AggregateError {
    /// The outcome at `index` is for a target that was not requested.
    UnknownTarget { index: usize },
    /// The outcome at `index` is a success with an error, or a failure
    /// without one.
    InconsistentOutcome { index: usize },
}

impl AggregateError {
    /// The index of the outcome at fault.
    pub open spec fn index(self) -> usize {
        match self {
            AggregateError::UnknownTarget { index } => index,
            AggregateError::InconsistentOutcome { index } => index,
        }
    }
}

/// Some outcome under `name` is a success.
pub open spec fn has_success(outcomes: Seq<ProbeOutcomeView>, name: Seq<char>) -> bool {
    exists|j: int|
        0 <= j < outcomes.len() && (#[trigger] outcomes[j]).target == name && outcomes[j].reachable
}

/// Some outcome was recorded under `name`.
pub open spec fn has_outcome(outcomes: Seq<ProbeOutcomeView>, name: Seq<char>) -> bool {
    exists|j: int| 0 <= j < outcomes.len() && (#[trigger] outcomes[j]).target == name
}

/// `at` is the latest instant at which a success was recorded under `name`.
pub open spec fn is_latest_success(
    outcomes: Seq<ProbeOutcomeView>,
    name: Seq<char>,
    at: u64,
) -> bool {
    &&& exists|j: int|
        0 <= j < outcomes.len() && (#[trigger] outcomes[j]).target == name && outcomes[j].reachable
            && outcomes[j].observed_at == at
    &&& forall|j: int|
        0 <= j < outcomes.len() && (#[trigger] outcomes[j]).target == name && outcomes[j].reachable
            ==> outcomes[j].observed_at <= at
}

/// The outcome at `j` is the last one recorded under `name`.
pub open spec fn is_last_outcome(outcomes: Seq<ProbeOutcomeView>, name: Seq<char>, j: int) -> bool {
    &&& 0 <= j < outcomes.len()
    &&& outcomes[j].target == name
    &&& forall|k: int| j < k < outcomes.len() ==> (#[trigger] outcomes[k]).target != name
}

/// `report` is the status that `outcomes` give the target requested under
/// `name`: online and healthy, last seen at its latest success, if any
/// attempt reached it; offline and unreachable with the error of its last
/// attempt if attempts were made and all failed; unknown and unreachable if
/// nothing was recorded for it.
pub open spec fn is_report_for(
    outcomes: Seq<ProbeOutcomeView>,
    name: Seq<char>,
    report: StatusReportView,
) -> bool {
    &&& report.hostname == name
    &&& if has_success(outcomes, name) {
        &&& report.reachability == Reachability::Online
        &&& report.health == Health::Healthy
        &&& report.last_seen matches Some(at) && is_latest_success(outcomes, name, at)
        &&& report.error is None
    } else if has_outcome(outcomes, name) {
        &&& report.reachability == Reachability::Offline
        &&& report.health == Health::Unreachable
        &&& report.last_seen is None
        &&& exists|j: int| #[trigger]
            is_last_outcome(outcomes, name, j) && report.error == outcomes[j].error
    } else {
        &&& report.reachability == Reachability::Unknown
        &&& report.health == Health::Unreachable
        &&& report.last_seen is None
        &&& report.error is None
    }
}

/// The fault, if any, of a single outcome: inconsistency first, then a name
/// that was not requested.
pub open spec fn outcome_defect(
    outcome: ProbeOutcomeView,
    names: Seq<Seq<char>>,
    index: usize,
) -> Option<AggregateError> {
    if !outcome.consistent() {
        Some(AggregateError::InconsistentOutcome { index })
    } else if !names.contains(outcome.target) {
        Some(AggregateError::UnknownTarget { index })
    } else {
        None
    }
}

/// No outcome before index `end` has a fault.
pub open spec fn sound_before(
    outcomes: Seq<ProbeOutcomeView>,
    names: Seq<Seq<char>>,
    end: int,
) -> bool {
    forall|j: int|
        0 <= j < end && j < outcomes.len() ==> outcome_defect(
            #[trigger] outcomes[j],
            names,
            j as usize,
        ) is None
}

/// Whether `name` is among `names`.
fn is_requested(names: &Vec<String>, name: &String) -> (found: bool)
    ensures
        found == name_views(names@).contains(name@),
{
    let n = names.len();
    let mut i: usize = 0;
    while i < n
        invariant
            i <= n,
            n == names.len(),
            forall|k: int| 0 <= k < i ==> (#[trigger] name_views(names@)[k]) != name@,
        decreases n - i,
    {
        if names[i] == *name {
            assert(name_views(names@)[i as int] == name@);
            return true;
        }
        i += 1;
    }
    false
}

/// The status that `outcomes` give the target requested as `requested`.
fn report_for(outcomes: &Vec<ProbeOutcome>, requested: &String) -> (report: StatusReport)
    ensures
        is_report_for(outcome_views(outcomes@), requested@, report@),
{
    let ghost all = outcome_views(outcomes@);
    let ghost name = requested@;
    let m = outcomes.len();
    let mut latest: Option<u64> = None;
    let mut seen = false;
    let mut last_error: Option<ProbeError> = None;
    let ghost mut last: int = 0;
    let mut j: usize = 0;
    while j < m
        invariant
            j <= m,
            m == outcomes.len(),
            all == outcome_views(outcomes@),
            name == requested@,
            match latest {
                Some(at) => is_latest_success(all.take(j as int), name, at),
                None => !has_success(all.take(j as int), name),
            },
            seen == has_outcome(all.take(j as int), name),
            seen ==> is_last_outcome(all.take(j as int), name, last) && last_error
                == all[last].error,
        decreases m - j,
    {
        let ghost seen_so_far = all.take(j as int);
        let ghost seen_next = all.take(j + 1);
        proof {
            assert(seen_next.len() == j + 1);
            assert(forall|k: int| 0 <= k < j ==> seen_next[k] == seen_so_far[k]);
            assert(seen_next[j as int] == all[j as int]);
            assert(all[j as int] == outcomes[j as int]@);
        }
        let outcome = &outcomes[j];
        if outcome.target == *requested {
            seen = true;
            last_error = outcome.error;
            proof {
                last = j as int;
            }
            if outcome.reachable {
                let at = match latest {
                    Some(at) => if at < outcome.observed_at {
                        outcome.observed_at
                    } else {
                        at
                    },
                    None => outcome.observed_at,
                };
                proof {
                    match latest {
                        Some(before) => {
                            if at == before {
                                let k = choose|k: int|
                                    0 <= k < seen_so_far.len() && (
                                    #[trigger] seen_so_far[k]).target == name
                                        && seen_so_far[k].reachable && seen_so_far[k].observed_at
                                        == before;
                                assert(seen_next[k].target == name && seen_next[k].reachable
                                    && seen_next[k].observed_at == at);
                            } else {
                                assert(seen_next[j as int].target == name && seen_next[j as int].reachable
                                    && seen_next[j as int].observed_at == at);
                            }
                            assert forall|k: int|
                                0 <= k < seen_next.len() && (#[trigger] seen_next[k]).target == name
                                    && seen_next[k].reachable implies seen_next[k].observed_at
                                <= at by {
                                if k < j {
                                    assert(seen_so_far[k].target == name);
                                }
                            }
                        },
                        None => {
                            assert(seen_next[j as int].target == name && seen_next[j as int].reachable
                                && seen_next[j as int].observed_at == at);
                            assert forall|k: int|
                                0 <= k < seen_next.len() && (#[trigger] seen_next[k]).target == name
                                    && seen_next[k].reachable implies seen_next[k].observed_at
                                <= at by {
                                if k < j {
                                    assert(seen_so_far[k].target == name
                                        && seen_so_far[k].reachable);
                                }
                            }
                        },
                    }
                }
                latest = Some(at);
            } else {
                proof {
                    lemma_success_extends(seen_so_far, seen_next, name, latest);
                }
            }
            assert(seen_next[j as int].target == name);
        } else {
            proof {
                lemma_success_extends(seen_so_far, seen_next, name, latest);
                if seen {
                    let k = choose|k: int|
                        0 <= k < seen_so_far.len() && (#[trigger] seen_so_far[k]).target == name;
                    assert(seen_next[k].target == name);
                    assert forall|k: int| last < k < seen_next.len() implies (
                    #[trigger] seen_next[k]).target != name by {
                        if k < j {
                            assert(seen_so_far[k].target != name);
                        }
                    }
                } else {
                    if has_outcome(seen_next, name) {
                        let k = choose|k: int|
                            0 <= k < seen_next.len() && (#[trigger] seen_next[k]).target == name;
                        assert(seen_so_far[k].target == name);
                    }
                }
            }
        }
        j += 1;
    }
    assert(all.take(m as int) == all);
    let hostname = requested.clone();
    match latest {
        Some(at) => {
            proof {
                let k = choose|k: int|
                    0 <= k < all.len() && (#[trigger] all[k]).target == name && all[k].reachable
                        && all[k].observed_at == at;
                assert(all[k].target == name && all[k].reachable);
            }
            StatusReport {
                hostname,
                reachability: Reachability::Online,
                health: Health::Healthy,
                last_seen: Some(at),
                error: None,
            }
        },
        None => {
            if seen {
                StatusReport {
                    hostname,
                    reachability: Reachability::Offline,
                    health: Health::Unreachable,
                    last_seen: None,
                    error: last_error,
                }
            } else {
                StatusReport {
                    hostname,
                    reachability: Reachability::Unknown,
                    health: Health::Unreachable,
                    last_seen: None,
                    error: None,
                }
            }
        },
    }
}

/// An outcome that is no success under `name` leaves the latest success
/// under `name` as it was.
proof fn lemma_success_extends(
    before: Seq<ProbeOutcomeView>,
    after: Seq<ProbeOutcomeView>,
    name: Seq<char>,
    latest: Option<u64>,
)
    requires
        after.len() == before.len() + 1,
        forall|k: int| 0 <= k < before.len() ==> after[k] == before[k],
        !(after.last().target == name && after.last().reachable),
        match latest {
            Some(at) => is_latest_success(before, name, at),
            None => !has_success(before, name),
        },
    ensures
        match latest {
            Some(at) => is_latest_success(after, name, at),
            None => !has_success(after, name),
        },
{
    match latest {
        Some(at) => {
            let k = choose|k: int|
                0 <= k < before.len() && (#[trigger] before[k]).target == name
                    && before[k].reachable && before[k].observed_at == at;
            assert(after[k].target == name && after[k].reachable && after[k].observed_at == at);
            assert forall|k: int|
                0 <= k < after.len() && (#[trigger] after[k]).target == name
                    && after[k].reachable implies after[k].observed_at <= at by {
                if k < before.len() {
                    assert(before[k].target == name);
                }
            }
        },
        None => {
            if has_success(after, name) {
                let k = choose|k: int|
                    0 <= k < after.len() && (#[trigger] after[k]).target == name
                        && after[k].reachable;
                assert(before[k].target == name && before[k].reachable);
            }
        },
    }
}

/// Turns outcomes into one report for each of `names`, in their order.
///
/// A target that failed is no error: it gets a report that says so. The only
/// errors are faults in the outcomes themselves, and the first outcome at
/// fault is named.
pub fn aggregate_by_name(outcomes: &Vec<ProbeOutcome>, names: &Vec<String>) -> (r: Result<
    Vec<StatusReport>,
    AggregateError,
>)
    ensures
        match r {
            Ok(reports) => {
                &&& sound_before(
                    outcome_views(outcomes@),
                    name_views(names@),
                    outcomes.len() as int,
                )
                &&& reports.len() == names.len()
                &&& forall|i: int|
                    0 <= i < reports.len() ==> is_report_for(
                        outcome_views(outcomes@),
                        names[i]@,
                        (#[trigger] reports[i])@,
                    )
            },
            Err(e) => {
                &&& e.index() < outcomes.len()
                &&& sound_before(outcome_views(outcomes@), name_views(names@), e.index() as int)
                &&& outcome_defect(
                    outcome_views(outcomes@)[e.index() as int],
                    name_views(names@),
                    e.index(),
                ) == Some(e)
            },
        },
{
    let ghost all = outcome_views(outcomes@);
    let m = outcomes.len();
    let mut j: usize = 0;
    while j < m
        invariant
            j <= m,
            m == outcomes.len(),
            all == outcome_views(outcomes@),
            sound_before(all, name_views(names@), j as int),
        decreases m - j,
    {
        let outcome = &outcomes[j];
        assert(all[j as int] == outcome@);
        if outcome.reachable != outcome.error.is_none() {
            return Err(AggregateError::InconsistentOutcome { index: j });
        }
        if !is_requested(names, &outcome.target) {
            return Err(AggregateError::UnknownTarget { index: j });
        }
        j += 1;
    }
    let n = names.len();
    let mut reports: Vec<StatusReport> = Vec::new();
    let mut i: usize = 0;
    while i < n
        invariant
            i <= n,
            n == names.len(),
            reports.len() == i,
            all == outcome_views(outcomes@),
            forall|k: int|
                0 <= k < i ==> is_report_for(all, names[k]@, (#[trigger] reports[k])@),
        decreases n - i,
    {
        let report = report_for(outcomes, &names[i]);
        reports.push(report);
        i += 1;
    }
    Ok(reports)
}

/// Turns the outcomes of a batch into one report for each requested target,
/// in request order.
///
/// A target that failed is no error: it gets a report that says so. The only
/// errors are faults in the outcomes themselves, and the first outcome at
/// fault is named.
pub fn aggregate(outcomes: &Vec<ProbeOutcome>, requested_targets: &Vec<ProbeTarget>) -> (r: Result<
    Vec<StatusReport>,
    AggregateError,
>)
    ensures
        match r {
            Ok(reports) => {
                &&& sound_before(
                    outcome_views(outcomes@),
                    target_names(requested_targets@),
                    outcomes.len() as int,
                )
                &&& reports.len() == requested_targets.len()
                &&& forall|i: int|
                    0 <= i < reports.len() ==> is_report_for(
                        outcome_views(outcomes@),
                        requested_targets[i]@.hostname,
                        (#[trigger] reports[i])@,
                    )
            },
            Err(e) => {
                &&& e.index() < outcomes.len()
                &&& sound_before(
                    outcome_views(outcomes@),
                    target_names(requested_targets@),
                    e.index() as int,
                )
                &&& outcome_defect(
                    outcome_views(outcomes@)[e.index() as int],
                    target_names(requested_targets@),
                    e.index(),
                ) == Some(e)
            },
        },
{
    let n = requested_targets.len();
    let mut names: Vec<String> = Vec::new();
    let mut i: usize = 0;
    while i < n
        invariant
            i <= n,
            n == requested_targets.len(),
            names.len() == i,
            forall|k: int| 0 <= k < i ==> (#[trigger] names[k])@ == requested_targets[k]@.hostname,
        decreases n - i,
    {
        names.push(requested_targets[i].hostname.clone());
        i += 1;
    }
    assert(name_views(names@) =~= target_names(requested_targets@));
    aggregate_by_name(outcomes, &names)
}

/// The log of a batch is never at fault: aggregating it over the batch's own
/// targets cannot fail.
pub proof fn lemma_batch_log_is_sound(batch: BatchView)
    requires
        batch.wf(),
    ensures
        sound_before(batch.log, batch.names, batch.log.len() as int),
{
    assert forall|j: int| 0 <= j < batch.log.len() implies outcome_defect(
        #[trigger] batch.log[j],
        batch.names,
        j as usize,
    ) is None by {
        assert(batch.logged(batch.log[j]));
        let i = choose|i: int|
            0 <= i < batch.names.len() && #[trigger] batch.names[i] == batch.log[j].target;
        assert(batch.names.contains(batch.log[j].target));
    }
}

/// No target is dropped silently: once a target of a batch is final, its
/// report is never `Unknown`, and it is `Online` exactly when a target of
/// that name has succeeded.
pub proof fn lemma_final_target_is_reported(batch: BatchView, i: int, report: StatusReportView)
    requires
        batch.wf(),
        0 <= i < batch.states.len(),
        batch.states[i].is_terminal(),
        is_report_for(batch.log, batch.names[i], report),
    ensures
        report.reachability != Reachability::Unknown,
        report.reachability == Reachability::Online <==> exists|k: int|
            0 <= k < batch.names.len() && #[trigger] batch.names[k] == batch.names[i]
                && batch.states[k] is Succeeded,
{
    let name = batch.names[i];
    assert(batch.accounted(i));
    let j = choose|j: int|
        0 <= j < batch.log.len() && (#[trigger] batch.log[j]).target == name && (batch.states[i]
            is Succeeded ==> batch.log[j].reachable);
    assert(has_outcome(batch.log, name));
    if has_success(batch.log, name) {
        let s = choose|s: int|
            0 <= s < batch.log.len() && (#[trigger] batch.log[s]).target == name
                && batch.log[s].reachable;
        assert(batch.logged(batch.log[s]));
        let k = choose|k: int|
            0 <= k < batch.names.len() && #[trigger] batch.names[k] == batch.log[s].target && (
            batch.log[s].reachable ==> batch.states[k] is Succeeded);
        assert(batch.names[k] == batch.names[i] && batch.states[k] is Succeeded);
    } else {
        assert forall|k: int|
            0 <= k < batch.names.len() && #[trigger] batch.names[k] == batch.names[i] implies !(
        batch.states[k] is Succeeded) by {
            if batch.states[k] is Succeeded {
                assert(batch.accounted(k));
                let s = choose|s: int|
                    0 <= s < batch.log.len() && (#[trigger] batch.log[s]).target == batch.names[k]
                        && (batch.states[k] is Succeeded ==> batch.log[s].reachable);
                assert(batch.log[s].target == name && batch.log[s].reachable);
            }
        }
    }
}

} // verus!
