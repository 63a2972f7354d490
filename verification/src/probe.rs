//! The probe engine's decisions.
//!
//! A [`ProbeBatch`] tracks one state machine per target. The caller owns the
//! sockets and the clock: it asks [`ProbeBatch::next_action`] what to do,
//! performs it, and reports each finished attempt with
//! [`ProbeBatch::record`]. Every finished attempt, and every target cut off by
//! the batch deadline, leaves one [`ProbeOutcome`] in the batch's log.

use vstd::prelude::*;
use crate::host::{target_names, ProbeTarget};
use crate::policy::{backoff_delay, PolicyError, ProbePolicy};
use crate::report::{
    aggregate_by_name, is_report_for, lemma_batch_log_is_sound, lemma_final_target_is_reported,
    Reachability, StatusReport,
};

verus! {

/// Why an attempt, or a whole target, failed.
#[derive(Clone, Copy, Debug, PartialEq, Eq, Structural)]
pub enum ProbeError {
    ConnectionRefused,
    AttemptTimeout,
    DnsResolutionFailure,
    NetworkUnreachable,
    BatchDeadlineExceeded,
}

/// What the caller observed of one attempt. The attempt reached its target
/// exactly when `error` is `None`.
#[derive(Clone, Copy, Debug)]
pub struct AttemptResult {
    pub elapsed_ms: u64,
    pub error: Option<ProbeError>,
}

/// The record of one attempt on one target.
#[derive(Debug)]
pub struct ProbeOutcome {
    /// The name the target was requested under.
    pub target: String,
    /// Which attempt this was, counted from one; zero for a target that the
    /// batch deadline cut off before its first attempt.
    pub attempt_number: u64,
    pub reachable: bool,
    pub latency_ms: u64,
    pub error: Option<ProbeError>,
    /// When the outcome was recorded.
    pub observed_at: u64,
}

/// The mathematical value of a [`ProbeOutcome`].
pub struct ProbeOutcomeView {
    pub target: Seq<char>,
    pub attempt_number: u64,
    pub reachable: bool,
    pub latency_ms: u64,
    pub error: Option<ProbeError>,
    pub observed_at: u64,
}

impl View for ProbeOutcome {
    type V = ProbeOutcomeView;

    open spec fn view(&self) -> ProbeOutcomeView {
        ProbeOutcomeView {
            target: self.target@,
            attempt_number: self.attempt_number,
            reachable: self.reachable,
            latency_ms: self.latency_ms,
            error: self.error,
            observed_at: self.observed_at,
        }
    }
}

impl Clone for ProbeOutcome {
    fn clone(&self) -> (r: ProbeOutcome)
        ensures
            r@ == self@,
    {
        ProbeOutcome {
            target: self.target.clone(),
            attempt_number: self.attempt_number,
            reachable: self.reachable,
            latency_ms: self.latency_ms,
            error: self.error,
            observed_at: self.observed_at,
        }
    }
}

impl ProbeOutcomeView {
    /// An outcome is either a success without an error or a failure with one.
    pub open spec fn consistent(self) -> bool {
        self.reachable <==> self.error is None
    }
}

/// Where one target stands.
#[derive(Clone, Copy, Debug, PartialEq, Eq, Structural)]
pub enum TargetState {
    /// Waiting for attempt number `attempt`, which may start at `not_before`.
    Pending { attempt: u64, not_before: u64 },
    /// Attempt number `attempt` is under way since `started_at`.
    InFlight { attempt: u64, started_at: u64 },
    /// Attempt number `attempt` reached the target.
    Succeeded { attempt: u64 },
    /// The target was given up after `attempt` attempts.
    Failed { attempt: u64, error: ProbeError },
}

/// The sum of an instant and a duration, held at the greatest instant.
pub open spec fn saturating_instant(now: u64, delay: nat) -> u64 {
    if now + delay > u64::MAX {
        u64::MAX
    } else {
        (now + delay) as u64
    }
}

impl TargetState {
    /// Succeeded and failed targets never change again.
    pub open spec fn is_terminal(self) -> bool {
        self is Succeeded || self is Failed
    }

    /// A pending target whose waiting time is over.
    pub open spec fn is_ready(self, now: u64) -> bool {
        self matches TargetState::Pending { not_before, .. } && not_before <= now
    }

    /// How many attempts have been started on the target.
    pub open spec fn attempts_started(self) -> nat {
        match self {
            TargetState::Pending { attempt, .. } => (attempt - 1) as nat,
            TargetState::InFlight { attempt, .. } => attempt as nat,
            TargetState::Succeeded { attempt } => attempt as nat,
            TargetState::Failed { attempt, .. } => attempt as nat,
        }
    }

    /// The attempt numbers that the policy allows in this state.
    pub open spec fn within(self, policy: ProbePolicy) -> bool {
        match self {
            TargetState::Pending { attempt, .. } => 1 <= attempt <= policy.max_attempts(),
            TargetState::InFlight { attempt, .. } => 1 <= attempt <= policy.max_attempts(),
            TargetState::Succeeded { attempt } => 1 <= attempt <= policy.max_attempts(),
            TargetState::Failed { attempt, .. } => attempt <= policy.max_attempts(),
        }
    }

    /// The state after the attempt in flight has ended with `result` at
    /// `now`: success is final; a failure is retried after the backoff delay
    /// while retries are left and the deadline has not passed, and final
    /// otherwise. States other than in flight are left alone.
    pub open spec fn after_result(
        self,
        result: AttemptResult,
        now: u64,
        policy: ProbePolicy,
        deadline_at: u64,
    ) -> TargetState {
        match self {
            TargetState::InFlight { attempt, .. } => match result.error {
                None => TargetState::Succeeded { attempt },
                Some(error) => if attempt <= policy.max_retries && now < deadline_at {
                    TargetState::Pending {
                        attempt: (attempt + 1) as u64,
                        not_before: saturating_instant(
                            now,
                            backoff_delay(policy.backoff, attempt as nat),
                        ),
                    }
                } else {
                    TargetState::Failed { attempt, error }
                },
            },
            _ => self,
        }
    }

    /// The state after the batch deadline has passed: what was not final is
    /// failed with `BatchDeadlineExceeded`.
    pub open spec fn expired(self) -> TargetState {
        if self.is_terminal() {
            self
        } else {
            TargetState::Failed {
                attempt: self.attempts_started() as u64,
                error: ProbeError::BatchDeadlineExceeded,
            }
        }
    }

    /// How long the attempt in flight has been running at `now`.
    pub open spec fn running_for(self, now: u64) -> u64 {
        match self {
            TargetState::InFlight { started_at, .. } => if started_at <= now {
                (now - started_at) as u64
            } else {
                0
            },
            _ => 0,
        }
    }
}

/// What the caller is to do next.
#[derive(Clone, Copy, Debug, PartialEq, Eq, Structural)]
pub enum Action {
    /// Start attempt number `attempt` on the target at index `target`, and
    /// give it up as `AttemptTimeout` after `timeout_ms`.
    Start { target: usize, attempt: u64, timeout_ms: u64 },
    /// Nothing can start now: come back when an attempt ends, or at `until`.
    WaitUntil { until: u64 },
    /// Every target has reached a final state.
    Finished,
}

/// How many of `states` are in flight.
pub open spec fn in_flight_count(states: Seq<TargetState>) -> nat
    decreases states.len(),
{
    if states.len() == 0 {
        0
    } else {
        in_flight_count(states.drop_last()) + if states.last() is InFlight {
            1nat
        } else {
            0nat
        }
    }
}

/// Every target of `states` is final.
pub open spec fn all_terminal(states: Seq<TargetState>) -> bool {
    forall|i: int| 0 <= i < states.len() ==> (#[trigger] states[i]).is_terminal()
}

/// `i` is the first target of `states` that can start at `now`.
pub open spec fn is_first_ready(states: Seq<TargetState>, now: u64, i: int) -> bool {
    &&& 0 <= i < states.len()
    &&& states[i].is_ready(now)
    &&& forall|j: int| 0 <= j < i ==> !(#[trigger] states[j]).is_ready(now)
}

/// No target of `states` can start at `now`.
pub open spec fn none_ready(states: Seq<TargetState>, now: u64) -> bool {
    forall|j: int| 0 <= j < states.len() ==> !(#[trigger] states[j]).is_ready(now)
}

/// `until` is the earlier of the deadline and the earliest instant at which
/// a pending target of `states` may start.
pub open spec fn is_earliest_wake(states: Seq<TargetState>, deadline_at: u64, until: u64) -> bool {
    &&& until <= deadline_at
    &&& forall|j: int|
        0 <= j < states.len() ==> ((#[trigger] states[j]) matches TargetState::Pending {
            not_before,
            ..
        } ==> until <= not_before)
    &&& (until == deadline_at || exists|j: int|
        0 <= j < states.len() && (#[trigger] states[j]) == (TargetState::Pending {
            attempt: states[j]->Pending_attempt,
            not_before: until,
        }))
}

/// The outcome that the deadline leaves for a target that was not final.
pub open spec fn expiry_outcome(name: Seq<char>, state: TargetState, now: u64) -> ProbeOutcomeView {
    ProbeOutcomeView {
        target: name,
        attempt_number: state.attempts_started() as u64,
        reachable: false,
        latency_ms: state.running_for(now),
        error: Some(ProbeError::BatchDeadlineExceeded),
        observed_at: now,
    }
}

/// The outcomes that the deadline leaves, in target order: one for each
/// target that was not final.
pub open spec fn expiry_outcomes(
    names: Seq<Seq<char>>,
    states: Seq<TargetState>,
    now: u64,
) -> Seq<ProbeOutcomeView>
    recommends
        names.len() == states.len(),
    decreases states.len(),
{
    if states.len() == 0 {
        Seq::empty()
    } else {
        let before = expiry_outcomes(names.drop_last(), states.drop_last(), now);
        if states.last().is_terminal() {
            before
        } else {
            before.push(expiry_outcome(names.last(), states.last(), now))
        }
    }
}

/// The outcome that a finished attempt leaves.
pub open spec fn attempt_outcome(
    name: Seq<char>,
    attempt: u64,
    result: AttemptResult,
    now: u64,
) -> ProbeOutcomeView {
    ProbeOutcomeView {
        target: name,
        attempt_number: attempt,
        reachable: result.error is None,
        latency_ms: result.elapsed_ms,
        error: result.error,
        observed_at: now,
    }
}

/// Replacing one state changes the number in flight by what left and what
/// came.
pub proof fn lemma_in_flight_update(states: Seq<TargetState>, i: int, state: TargetState)
    requires
        0 <= i < states.len(),
    ensures
        in_flight_count(states.update(i, state)) + (if states[i] is InFlight {
            1nat
        } else {
            0nat
        }) == in_flight_count(states) + (if state is InFlight {
            1nat
        } else {
            0nat
        }),
    decreases states.len(),
{
    let updated = states.update(i, state);
    if i == states.len() - 1 {
        assert(updated.drop_last() == states.drop_last());
    } else {
        assert(updated.drop_last() == states.drop_last().update(i, state));
        lemma_in_flight_update(states.drop_last(), i, state);
    }
}

/// Where nothing is in flight the count is zero, and it never exceeds the
/// number of targets.
pub proof fn lemma_in_flight_bounds(states: Seq<TargetState>)
    ensures
        in_flight_count(states) <= states.len(),
        (forall|i: int| 0 <= i < states.len() ==> !((#[trigger] states[i]) is InFlight))
            ==> in_flight_count(states) == 0,
    decreases states.len(),
{
    if states.len() > 0 {
        lemma_in_flight_bounds(states.drop_last());
        assert(forall|i: int|
            0 <= i < states.len() - 1 ==> #[trigger] states.drop_last()[i] == states[i]);
    }
}

/// The mathematical value of a [`ProbeBatch`].
pub struct BatchView {
    pub policy: ProbePolicy,
    /// The instant at which the batch deadline passes.
    pub deadline_at: u64,
    /// The names of the targets, in request order.
    pub names: Seq<Seq<char>>,
    /// The state of each target, in request order.
    pub states: Seq<TargetState>,
    /// The outcomes recorded so far, oldest first.
    pub log: Seq<ProbeOutcomeView>,
}

impl BatchView {
    /// The batch as it starts at `now`: every target pending for its first
    /// attempt, nothing recorded, the deadline `batch_deadline_ms` away.
    pub open spec fn initial(names: Seq<Seq<char>>, policy: ProbePolicy, now: u64) -> BatchView {
        BatchView {
            policy,
            deadline_at: saturating_instant(now, policy.batch_deadline_ms as nat),
            names,
            states: Seq::new(
                names.len(),
                |i: int| TargetState::Pending { attempt: 1, not_before: now },
            ),
            log: Seq::empty(),
        }
    }

    /// What holds of every recorded outcome: it is consistent, its attempt
    /// number is within the policy, it names a requested target, and a
    /// success belongs to a target that has succeeded.
    pub open spec fn logged(self, outcome: ProbeOutcomeView) -> bool {
        &&& outcome.consistent()
        &&& outcome.attempt_number <= self.policy.max_attempts()
        &&& exists|i: int|
            0 <= i < self.names.len() && #[trigger] self.names[i] == outcome.target && (
            outcome.reachable ==> self.states[i] is Succeeded)
    }

    /// What holds of every target: once it is final, the log holds an
    /// outcome under its name, and a success if it succeeded.
    pub open spec fn accounted(self, i: int) -> bool {
        self.states[i].is_terminal() ==> exists|j: int|
            0 <= j < self.log.len() && (#[trigger] self.log[j]).target == self.names[i] && (
            self.states[i] is Succeeded ==> self.log[j].reachable)
    }

    /// The invariant of a batch.
    pub open spec fn wf(self) -> bool {
        &&& self.policy.valid()
        &&& self.names.len() == self.states.len()
        &&& in_flight_count(self.states) <= self.policy.concurrency_limit
        &&& forall|i: int|
            0 <= i < self.states.len() ==> (#[trigger] self.states[i]).within(self.policy)
        &&& forall|j: int| 0 <= j < self.log.len() ==> self.logged(#[trigger] self.log[j])
        &&& forall|i: int| 0 <= i < self.states.len() ==> #[trigger] self.accounted(i)
    }

    /// Every target is final.
    pub open spec fn finished(self) -> bool {
        all_terminal(self.states)
    }

    /// The batch after the attempt in flight on `target` has ended with
    /// `result` at `now`. A report for a target that is not in flight
    /// changes nothing.
    pub open spec fn recorded(self, target: int, result: AttemptResult, now: u64) -> BatchView {
        if 0 <= target < self.states.len() && self.states[target] is InFlight {
            BatchView {
                states: self.states.update(
                    target,
                    self.states[target].after_result(result, now, self.policy, self.deadline_at),
                ),
                log: self.log.push(
                    attempt_outcome(
                        self.names[target],
                        self.states[target]->InFlight_attempt,
                        result,
                        now,
                    ),
                ),
                ..self
            }
        } else {
            self
        }
    }

    /// The batch after the deadline has passed at `now`.
    pub open spec fn expired(self, now: u64) -> BatchView {
        BatchView {
            states: Seq::new(self.states.len(), |i: int| self.states[i].expired()),
            log: self.log + expiry_outcomes(self.names, self.states, now),
            ..self
        }
    }

    /// The batch after attempt number `attempt` has started on `target` at
    /// `now`.
    pub open spec fn started(self, target: int, now: u64) -> BatchView {
        BatchView {
            states: self.states.update(
                target,
                TargetState::InFlight {
                    attempt: self.states[target]->Pending_attempt,
                    started_at: now,
                },
            ),
            ..self
        }
    }

    /// The time that an attempt started at `now` is given: the policy's
    /// timeout, cut short where the deadline comes first.
    pub open spec fn attempt_timeout(self, now: u64) -> u64 {
        if self.deadline_at - now < self.policy.timeout_per_attempt_ms {
            (self.deadline_at - now) as u64
        } else {
            self.policy.timeout_per_attempt_ms
        }
    }

    /// What [`ProbeBatch::next_action`] does to a batch at `now`, and what it
    /// answers.
    pub open spec fn next_action(self, next: BatchView, action: Action, now: u64) -> bool {
        if self.finished() {
            action == Action::Finished && next == self
        } else if now >= self.deadline_at {
            action == Action::Finished && next == self.expired(now)
        } else {
            match action {
                Action::Start { target, attempt, timeout_ms } => {
                    &&& in_flight_count(self.states) < self.policy.concurrency_limit
                    &&& is_first_ready(self.states, now, target as int)
                    &&& attempt == self.states[target as int]->Pending_attempt
                    &&& timeout_ms == self.attempt_timeout(now)
                    &&& next == self.started(target as int, now)
                },
                Action::WaitUntil { until } => {
                    &&& next == self
                    &&& now < until
                    &&& if in_flight_count(self.states) < self.policy.concurrency_limit {
                        none_ready(self.states, now) && is_earliest_wake(
                            self.states,
                            self.deadline_at,
                            until,
                        )
                    } else {
                        until == self.deadline_at
                    }
                },
                Action::Finished => false,
            }
        }
    }
}

/// What the deadline leaves in the log: nothing but failures within the
/// policy under the names of targets that were not final, and one for each
/// of those.
pub proof fn lemma_expiry_outcomes(
    names: Seq<Seq<char>>,
    states: Seq<TargetState>,
    policy: ProbePolicy,
    now: u64,
)
    requires
        names.len() == states.len(),
        forall|i: int| 0 <= i < states.len() ==> (#[trigger] states[i]).within(policy),
    ensures
        forall|k: int|
            0 <= k < expiry_outcomes(names, states, now).len() ==> {
                let o = #[trigger] expiry_outcomes(names, states, now)[k];
                &&& !o.reachable
                &&& o.consistent()
                &&& o.attempt_number <= policy.max_attempts()
                &&& exists|i: int| 0 <= i < names.len() && #[trigger] names[i] == o.target
            },
        forall|i: int|
            0 <= i < states.len() && !(#[trigger] states[i]).is_terminal() ==> exists|k: int|
                0 <= k < expiry_outcomes(names, states, now).len() && (#[trigger] expiry_outcomes(
                    names,
                    states,
                    now,
                )[k]).target == names[i],
    decreases states.len(),
{
    if states.len() > 0 {
        let names0 = names.drop_last();
        let states0 = states.drop_last();
        let before = expiry_outcomes(names0, states0, now);
        let all = expiry_outcomes(names, states, now);
        let last = states.len() - 1;
        lemma_expiry_outcomes(names0, states0, policy, now);
        assert forall|k: int| 0 <= k < all.len() implies ({
            let o = #[trigger] all[k];
            &&& !o.reachable
            &&& o.consistent()
            &&& o.attempt_number <= policy.max_attempts()
            &&& exists|i: int| 0 <= i < names.len() && #[trigger] names[i] == o.target
        }) by {
            if k < before.len() {
                let o = before[k];
                assert(all[k] == o);
                let i = choose|i: int| 0 <= i < names0.len() && #[trigger] names0[i] == o.target;
                assert(names[i] == o.target);
            } else {
                assert(states[last].within(policy));
                assert(names[last] == all[k].target);
            }
        }
        assert forall|i: int| 0 <= i < states.len() && !(#[trigger] states[i]).is_terminal()
            implies exists|k: int|
            0 <= k < all.len() && (#[trigger] all[k]).target == names[i] by {
            if i < last {
                assert(states0[i] == states[i]);
                let k = choose|k: int|
                    0 <= k < before.len() && (#[trigger] before[k]).target == names0[i];
                assert(all[k].target == names[i]);
            } else {
                assert(all[all.len() - 1].target == names[i]);
            }
        }
    }
}

/// Starting a ready target keeps the batch's invariant.
pub proof fn lemma_started_wf(batch: BatchView, target: int, now: u64)
    requires
        batch.wf(),
        0 <= target < batch.states.len(),
        batch.states[target] is Pending,
        in_flight_count(batch.states) < batch.policy.concurrency_limit,
    ensures
        batch.started(target, now).wf(),
{
    let next = batch.started(target, now);
    lemma_in_flight_update(batch.states, target, next.states[target]);
    assert forall|j: int| 0 <= j < next.log.len() implies next.logged(#[trigger] next.log[j]) by {
        let o = batch.log[j];
        assert(batch.logged(o));
        let i = choose|i: int|
            0 <= i < batch.names.len() && #[trigger] batch.names[i] == o.target && (o.reachable
                ==> batch.states[i] is Succeeded);
        assert(next.names[i] == o.target);
    }
    assert forall|i: int| 0 <= i < next.states.len() implies #[trigger] next.accounted(i) by {
        assert(batch.accounted(i));
    }
    assert forall|i: int| 0 <= i < next.states.len() implies (#[trigger] next.states[i]).within(
        next.policy,
    ) by {
        assert(batch.states[i].within(batch.policy));
    }
}

/// Recording the end of an attempt keeps the batch's invariant.
pub proof fn lemma_recorded_wf(batch: BatchView, target: int, result: AttemptResult, now: u64)
    requires
        batch.wf(),
    ensures
        batch.recorded(target, result, now).wf(),
{
    let next = batch.recorded(target, result, now);
    if 0 <= target < batch.states.len() && batch.states[target] is InFlight {
        lemma_in_flight_update(batch.states, target, next.states[target]);
        assert(batch.states[target].within(batch.policy));
        assert forall|i: int| 0 <= i < next.states.len() implies (
        #[trigger] next.states[i]).within(next.policy) by {
            assert(batch.states[i].within(batch.policy));
        }
        assert forall|j: int| 0 <= j < next.log.len() implies next.logged(
            #[trigger] next.log[j],
        ) by {
            if j < batch.log.len() {
                let o = batch.log[j];
                assert(batch.logged(o));
                let i = choose|i: int|
                    0 <= i < batch.names.len() && #[trigger] batch.names[i] == o.target && (
                    o.reachable ==> batch.states[i] is Succeeded);
                assert(next.names[i] == o.target);
            } else {
                assert(next.names[target] == next.log[j].target);
            }
        }
        assert forall|i: int| 0 <= i < next.states.len() implies #[trigger] next.accounted(i) by {
            if i == target {
                if next.states[i].is_terminal() {
                    assert(next.log[batch.log.len() as int].target == next.names[i]);
                }
            } else {
                assert(batch.accounted(i));
                if batch.states[i].is_terminal() {
                    let j = choose|j: int|
                        0 <= j < batch.log.len() && (#[trigger] batch.log[j]).target
                            == batch.names[i] && (batch.states[i] is Succeeded
                            ==> batch.log[j].reachable);
                    assert(next.log[j].target == next.names[i]);
                }
            }
        }
    }
}

/// Passing the deadline keeps the batch's invariant and leaves every target
/// final.
pub proof fn lemma_expired_wf(batch: BatchView, now: u64)
    requires
        batch.wf(),
    ensures
        batch.expired(now).wf(),
        batch.expired(now).finished(),
{
    let next = batch.expired(now);
    let added = expiry_outcomes(batch.names, batch.states, now);
    lemma_in_flight_bounds(next.states);
    lemma_expiry_outcomes(batch.names, batch.states, batch.policy, now);
    assert forall|i: int| 0 <= i < next.states.len() implies (#[trigger] next.states[i]).within(
        next.policy,
    ) by {
        assert(batch.states[i].within(batch.policy));
    }
    assert forall|j: int| 0 <= j < next.log.len() implies next.logged(#[trigger] next.log[j]) by {
        if j < batch.log.len() {
            let o = batch.log[j];
            assert(batch.logged(o));
            let i = choose|i: int|
                0 <= i < batch.names.len() && #[trigger] batch.names[i] == o.target && (
                o.reachable ==> batch.states[i] is Succeeded);
            assert(next.names[i] == o.target);
        } else {
            let o = added[j - batch.log.len()];
            assert(next.log[j] == o);
            let i = choose|i: int| 0 <= i < batch.names.len() && #[trigger] batch.names[i] == o.target;
            assert(next.names[i] == o.target);
        }
    }
    assert forall|i: int| 0 <= i < next.states.len() implies #[trigger] next.accounted(i) by {
        if batch.states[i].is_terminal() {
            assert(batch.accounted(i));
            let j = choose|j: int|
                0 <= j < batch.log.len() && (#[trigger] batch.log[j]).target == batch.names[i] && (
                batch.states[i] is Succeeded ==> batch.log[j].reachable);
            assert(next.log[j].target == next.names[i]);
        } else {
            let k = choose|k: int| 0 <= k < added.len() && (#[trigger] added[k]).target == batch.names[i];
            assert(next.log[batch.log.len() + k].target == next.names[i]);
        }
    }
}

/// No recorded outcome has an attempt number beyond the retries that the
/// policy allows plus one.
pub proof fn lemma_attempts_within_policy(batch: BatchView, j: int)
    requires
        batch.wf(),
        0 <= j < batch.log.len(),
    ensures
        batch.log[j].attempt_number <= batch.policy.max_retries + 1,
{
    assert(batch.logged(batch.log[j]));
}

/// The batch never asks for anything beyond its deadline: a wait ends at the
/// deadline at the latest, an attempt is given no more time than is left,
/// and from the deadline on the only answer is `Finished`, with every target
/// final.
pub proof fn lemma_deadline_is_kept(batch: BatchView, next: BatchView, action: Action, now: u64)
    requires
        batch.wf(),
        batch.next_action(next, action, now),
    ensures
        action matches Action::WaitUntil { until } ==> now < until <= batch.deadline_at,
        action matches Action::Start { timeout_ms, .. } ==> now + timeout_ms <= batch.deadline_at
            && timeout_ms <= batch.policy.timeout_per_attempt_ms,
        now >= batch.deadline_at ==> action == Action::Finished && next.finished(),
        action == Action::Finished ==> next.finished(),
{
    if !batch.finished() && now >= batch.deadline_at {
        lemma_expired_wf(batch, now);
    }
}

/// What [`ProbeBatch::next_action`] answers is decided by the batch and the
/// time alone.
pub proof fn lemma_next_action_is_determined(
    batch: BatchView,
    now: u64,
    next1: BatchView,
    action1: Action,
    next2: BatchView,
    action2: Action,
)
    requires
        batch.next_action(next1, action1, now),
        batch.next_action(next2, action2, now),
    ensures
        action1 == action2,
        next1 == next2,
{
    if !batch.finished() && now < batch.deadline_at {
        match (action1, action2) {
            (Action::Start { target: t1, .. }, Action::Start { target: t2, .. }) => {
                if t1 < t2 {
                    assert(batch.states[t1 as int].is_ready(now));
                } else if t2 < t1 {
                    assert(batch.states[t2 as int].is_ready(now));
                }
            },
            (Action::Start { target, .. }, Action::WaitUntil { .. }) => {
                assert(batch.states[target as int].is_ready(now));
            },
            (Action::WaitUntil { .. }, Action::Start { target, .. }) => {
                assert(batch.states[target as int].is_ready(now));
            },
            (Action::WaitUntil { until: u1 }, Action::WaitUntil { until: u2 }) => {
                if in_flight_count(batch.states) < batch.policy.concurrency_limit {
                    if u1 != batch.deadline_at {
                        let j = choose|j: int|
                            0 <= j < batch.states.len() && (#[trigger] batch.states[j]) == (
                            TargetState::Pending {
                                attempt: batch.states[j]->Pending_attempt,
                                not_before: u1,
                            });
                        assert(batch.states[j] is Pending);
                    }
                    if u2 != batch.deadline_at {
                        let j = choose|j: int|
                            0 <= j < batch.states.len() && (#[trigger] batch.states[j]) == (
                            TargetState::Pending {
                                attempt: batch.states[j]->Pending_attempt,
                                not_before: u2,
                            });
                        assert(batch.states[j] is Pending);
                    }
                }
            },
            _ => {},
        }
    }
}

/// The values of a sequence of outcomes.
pub open spec fn outcome_views(outcomes: Seq<ProbeOutcome>) -> Seq<ProbeOutcomeView> {
    Seq::new(outcomes.len(), |j: int| outcomes[j]@)
}

/// The values of a sequence of names.
pub open spec fn name_views(names: Seq<String>) -> Seq<Seq<char>> {
    Seq::new(names.len(), |i: int| names[i]@)
}

/// One run of probes over a list of targets.
pub struct ProbeBatch {
    policy: ProbePolicy,
    deadline_at: u64,
    names: Vec<String>,
    states: Vec<TargetState>,
    log: Vec<ProbeOutcome>,
}

impl View for ProbeBatch {
    type V = BatchView;

    closed spec fn view(&self) -> BatchView {
        BatchView {
            policy: self.policy,
            deadline_at: self.deadline_at,
            names: name_views(self.names@),
            states: self.states@,
            log: outcome_views(self.log@),
        }
    }
}

/// The parts of a batch, taken apart to be worked on.
struct BatchParts {
    policy: ProbePolicy,
    deadline_at: u64,
    names: Vec<String>,
    states: Vec<TargetState>,
    log: Vec<ProbeOutcome>,
}

impl View for BatchParts {
    type V = BatchView;

    closed spec fn view(&self) -> BatchView {
        BatchView {
            policy: self.policy,
            deadline_at: self.deadline_at,
            names: name_views(self.names@),
            states: self.states@,
            log: outcome_views(self.log@),
        }
    }
}

impl ProbeBatch {
    /// The invariant of a batch: see [`BatchView::wf`].
    #[verifier::type_invariant]
    pub open spec fn wf(&self) -> bool {
        self@.wf()
    }

    /// Takes the batch apart. What is left behind is a batch without
    /// targets, until the parts are put back.
    fn take_parts(&mut self) -> (parts: BatchParts)
        ensures
            parts@ == old(self)@,
            old(self)@.wf(),
    {
        proof {
            use_type_invariant(&*self);
        }
        let mut taken = ProbeBatch {
            policy: self.policy,
            deadline_at: self.deadline_at,
            names: Vec::new(),
            states: Vec::new(),
            log: Vec::new(),
        };
        proof {
            lemma_in_flight_bounds(taken@.states);
        }
        std::mem::swap(self, &mut taken);
        BatchParts {
            policy: taken.policy,
            deadline_at: taken.deadline_at,
            names: taken.names,
            states: taken.states,
            log: taken.log,
        }
    }

    /// Puts the parts of a batch together.
    fn from_parts(parts: BatchParts) -> (batch: ProbeBatch)
        requires
            parts@.wf(),
        ensures
            batch@ == parts@,
    {
        ProbeBatch {
            policy: parts.policy,
            deadline_at: parts.deadline_at,
            names: parts.names,
            states: parts.states,
            log: parts.log,
        }
    }

    /// Starts a batch over `targets` at `now`. A policy with a defect is
    /// refused; nothing else is.
    pub fn new(targets: &Vec<ProbeTarget>, policy: ProbePolicy, now: u64) -> (r: Result<
        ProbeBatch,
        PolicyError,
    >)
        ensures
            match r {
                Ok(batch) => policy.valid() && batch@ == BatchView::initial(
                    target_names(targets@),
                    policy,
                    now,
                ) && batch@.wf(),
                Err(e) => policy.defect() == Some(e),
            },
    {
        match policy.validate() {
            Err(e) => {
                return Err(e);
            },
            Ok(()) => {},
        }
        let mut names: Vec<String> = Vec::new();
        let mut states: Vec<TargetState> = Vec::new();
        let n = targets.len();
        let mut i: usize = 0;
        while i < n
            invariant
                i <= n,
                n == targets.len(),
                names.len() == i,
                states.len() == i,
                forall|k: int| 0 <= k < i ==> (#[trigger] names[k])@ == targets[k]@.hostname,
                forall|k: int|
                    0 <= k < i ==> #[trigger] states[k] == (TargetState::Pending {
                        attempt: 1,
                        not_before: now,
                    }),
            decreases n - i,
        {
            names.push(targets[i].hostname.clone());
            states.push(TargetState::Pending { attempt: 1, not_before: now });
            i += 1;
        }
        let parts = BatchParts {
            policy,
            deadline_at: now.saturating_add(policy.batch_deadline_ms),
            names,
            states,
            log: Vec::new(),
        };
        proof {
            let initial = BatchView::initial(target_names(targets@), policy, now);
            assert(parts@.names =~= initial.names);
            assert(parts@.states =~= initial.states);
            assert(parts@.log =~= initial.log);
            lemma_in_flight_bounds(parts@.states);
            assert forall|k: int| 0 <= k < parts@.states.len() implies #[trigger] parts@.accounted(
                k,
            ) by {}
        }
        Ok(Self::from_parts(parts))
    }

    /// The policy that the batch runs under.
    pub fn policy(&self) -> (p: ProbePolicy)
        ensures
            p == self@.policy,
            self.wf(),
    {
        proof {
            use_type_invariant(self);
        }
        self.policy
    }

    /// The instant at which the batch deadline passes.
    pub fn deadline_at(&self) -> (t: u64)
        ensures
            t == self@.deadline_at,
    {
        self.deadline_at
    }

    /// How many targets the batch runs over.
    pub fn target_count(&self) -> (n: usize)
        ensures
            n == self@.states.len(),
    {
        self.states.len()
    }

    /// The state of the target at index `target`, if there is one.
    pub fn state(&self, target: usize) -> (s: Option<TargetState>)
        ensures
            s == if target < self@.states.len() {
                Some(self@.states[target as int])
            } else {
                None
            },
    {
        if target < self.states.len() {
            Some(self.states[target])
        } else {
            None
        }
    }

    /// Whether every target has reached a final state.
    pub fn is_finished(&self) -> (done: bool)
        ensures
            done == self@.finished(),
    {
        let n = self.states.len();
        let mut i: usize = 0;
        while i < n
            invariant
                i <= n,
                n == self.states.len(),
                forall|k: int| 0 <= k < i ==> (#[trigger] self.states[k]).is_terminal(),
            decreases n - i,
        {
            match self.states[i] {
                TargetState::Pending { .. } => {
                    return false;
                },
                TargetState::InFlight { .. } => {
                    return false;
                },
                _ => {},
            }
            i += 1;
        }
        true
    }

    /// The outcomes recorded so far, oldest first. No attempt number among
    /// them exceeds the retries that the policy allows plus one.
    pub fn outcomes(&self) -> (log: &Vec<ProbeOutcome>)
        ensures
            outcome_views(log@) == self@.log,
            self.wf(),
            forall|j: int|
                0 <= j < log.len() ==> (#[trigger] log[j]).attempt_number
                    <= self@.policy.max_retries + 1,
    {
        proof {
            use_type_invariant(self);
            assert forall|j: int| 0 <= j < self.log.len() implies (
            #[trigger] self.log[j]).attempt_number <= self@.policy.max_retries + 1 by {
                assert(self@.log[j] == self.log[j]@);
                lemma_attempts_within_policy(self@, j);
            }
        }
        &self.log
    }

    /// The status of every target, in request order, as the outcomes recorded
    /// so far give it: one report for each target, whatever became of it.
    /// A target that has reached a final state is never reported as
    /// `Unknown`.
    pub fn reports(&self) -> (reports: Vec<StatusReport>)
        ensures
            reports.len() == self@.names.len(),
            forall|i: int|
                0 <= i < reports.len() ==> is_report_for(
                    self@.log,
                    self@.names[i],
                    (#[trigger] reports[i])@,
                ),
            forall|i: int|
                0 <= i < reports.len() && self@.states[i].is_terminal() ==> (
                #[trigger] reports[i])@.reachability != Reachability::Unknown,
    {
        proof {
            use_type_invariant(self);
            lemma_batch_log_is_sound(self@);
        }
        match aggregate_by_name(&self.log, &self.names) {
            Ok(reports) => {
                proof {
                    assert forall|i: int|
                        0 <= i < reports.len() && self@.states[i].is_terminal() implies (
                    #[trigger] reports[i])@.reachability != Reachability::Unknown by {
                        lemma_final_target_is_reported(self@, i, reports[i]@);
                    }
                }
                reports
            },
            Err(e) => {
                assert(false);
                Vec::new()
            },
        }
    }

    /// Records that the attempt in flight on `target` ended with `result` at
    /// `now`, and says whether there was such an attempt. A success is
    /// final. A failure is retried after the backoff delay while retries are
    /// left and the deadline has not passed; else the target has failed with
    /// the error of this attempt.
    pub fn record(&mut self, target: usize, result: AttemptResult, now: u64) -> (accepted: bool)
        ensures
            accepted == (target < old(self)@.states.len() && old(self)@.states[target as int]
                is InFlight),
            final(self)@ == old(self)@.recorded(target as int, result, now),
            final(self).wf(),
    {
        let ghost before = self@;
        if target >= self.states.len() {
            proof {
                use_type_invariant(&*self);
            }
            return false;
        }
        match self.states[target] {
            TargetState::InFlight { attempt, .. } => {
                let mut parts = self.take_parts();
                proof {
                    lemma_recorded_wf(before, target as int, result, now);
                }
                assert(before.states[target as int].within(before.policy));
                let next = match result.error {
                    None => TargetState::Succeeded { attempt },
                    Some(error) => {
                        if attempt <= parts.policy.max_retries as u64 && now < parts.deadline_at {
                            let delay = parts.policy.backoff.delay(attempt);
                            TargetState::Pending {
                                attempt: attempt + 1,
                                not_before: now.saturating_add(delay),
                            }
                        } else {
                            TargetState::Failed { attempt, error }
                        }
                    },
                };
                let outcome = ProbeOutcome {
                    target: parts.names[target].clone(),
                    attempt_number: attempt,
                    reachable: result.error.is_none(),
                    latency_ms: result.elapsed_ms,
                    error: result.error,
                    observed_at: now,
                };
                parts.log.push(outcome);
                parts.states.set(target, next);
                proof {
                    let after = before.recorded(target as int, result, now);
                    assert(parts@.names =~= after.names);
                    assert(parts@.states =~= after.states);
                    assert(parts@.log =~= after.log);
                }
                *self = Self::from_parts(parts);
                true
            },
            _ => {
                proof {
                    use_type_invariant(&*self);
                }
                false
            },
        }
    }

    /// Fails every target that is not final with `BatchDeadlineExceeded`.
    fn expire_all(parts: &mut BatchParts, now: u64)
        requires
            old(parts)@.wf(),
        ensures
            final(parts)@ == old(parts)@.expired(now),
            final(parts)@.wf(),
            final(parts)@.finished(),
    {
        let ghost before = parts@;
        let n = parts.states.len();
        let mut i: usize = 0;
        while i < n
            invariant
                i <= n,
                n == before.states.len(),
                before.wf(),
                parts.states.len() == n,
                parts.names.len() == n,
                parts.policy == before.policy,
                parts.deadline_at == before.deadline_at,
                name_views(parts.names@) == before.names,
                forall|k: int|
                    0 <= k < i ==> #[trigger] parts.states[k] == before.states[k].expired(),
                forall|k: int| i <= k < n ==> #[trigger] parts.states[k] == before.states[k],
                outcome_views(parts.log@) == before.log + expiry_outcomes(
                    before.names.take(i as int),
                    before.states.take(i as int),
                    now,
                ),
            decreases n - i,
        {
            let state = parts.states[i];
            proof {
                assert(before.names.take(i + 1).drop_last() == before.names.take(i as int));
                assert(before.states.take(i + 1).drop_last() == before.states.take(i as int));
                assert(before.states[i as int].within(before.policy));
            }
            let ghost log_before = outcome_views(parts.log@);
            match state {
                TargetState::Pending { attempt, .. } => {
                    let outcome = ProbeOutcome {
                        target: parts.names[i].clone(),
                        attempt_number: attempt - 1,
                        reachable: false,
                        latency_ms: 0,
                        error: Some(ProbeError::BatchDeadlineExceeded),
                        observed_at: now,
                    };
                    parts.log.push(outcome);
                    parts.states.set(
                        i,
                        TargetState::Failed {
                            attempt: attempt - 1,
                            error: ProbeError::BatchDeadlineExceeded,
                        },
                    );
                    assert(outcome_views(parts.log@) =~= log_before.push(
                        expiry_outcome(before.names[i as int], state, now),
                    ));
                },
                TargetState::InFlight { attempt, started_at } => {
                    let outcome = ProbeOutcome {
                        target: parts.names[i].clone(),
                        attempt_number: attempt,
                        reachable: false,
                        latency_ms: if started_at <= now {
                            now - started_at
                        } else {
                            0
                        },
                        error: Some(ProbeError::BatchDeadlineExceeded),
                        observed_at: now,
                    };
                    parts.log.push(outcome);
                    parts.states.set(
                        i,
                        TargetState::Failed { attempt, error: ProbeError::BatchDeadlineExceeded },
                    );
                    assert(outcome_views(parts.log@) =~= log_before.push(
                        expiry_outcome(before.names[i as int], state, now),
                    ));
                },
                _ => {
                    assert(outcome_views(parts.log@) =~= log_before);
                },
            }
            assert(name_views(parts.names@) =~= before.names);
            i += 1;
        }
        proof {
            assert(before.names.take(n as int) == before.names);
            assert(before.states.take(n as int) == before.states);
            assert(parts@.states =~= before.expired(now).states);
            lemma_expired_wf(before, now);
        }
    }

    /// Decides what the caller is to do at `now`.
    ///
    /// Once every target is final the answer is `Finished`. Once the deadline
    /// has passed, every target that is not final fails with
    /// `BatchDeadlineExceeded` and the answer is `Finished` too. Before that,
    /// while fewer attempts are in flight than the policy allows, the first
    /// pending target whose waiting time is over is started; where none can
    /// start, the answer is to wait, never beyond the deadline.
    pub fn next_action(&mut self, now: u64) -> (action: Action)
        ensures
            old(self)@.next_action(final(self)@, action, now),
            old(self).wf(),
            final(self).wf(),
    {
        let ghost before = self@;
        let mut parts = self.take_parts();
        let action = Self::decide(&mut parts, now);
        *self = Self::from_parts(parts);
        action
    }

    /// Decides what the caller is to do at `now`, on a batch taken apart.
    fn decide(parts: &mut BatchParts, now: u64) -> (action: Action)
        requires
            old(parts)@.wf(),
        ensures
            old(parts)@.next_action(final(parts)@, action, now),
            final(parts)@.wf(),
    {
        let ghost before = parts@;
        let n = parts.states.len();
        let mut in_flight: usize = 0;
        let mut finished = true;
        let mut ready: Option<(usize, u64)> = None;
        let mut wake: u64 = parts.deadline_at;
        let mut i: usize = 0;
        while i < n
            invariant
                i <= n,
                n == parts.states.len(),
                parts@ == before,
                in_flight == in_flight_count(parts.states@.take(i as int)),
                in_flight <= i,
                finished == all_terminal(parts.states@.take(i as int)),
                match ready {
                    Some((r, attempt)) => is_first_ready(parts.states@.take(i as int), now, r as int)
                        && parts.states[r as int]->Pending_attempt == attempt,
                    None => none_ready(parts.states@.take(i as int), now),
                },
                is_earliest_wake(parts.states@.take(i as int), parts.deadline_at, wake),
            decreases n - i,
        {
            let state = parts.states[i];
            let ghost seen = parts.states@.take(i as int);
            let ghost seen_next = parts.states@.take(i + 1);
            proof {
                assert(seen_next.drop_last() == seen);
                assert(seen_next.last() == state);
                assert(forall|k: int| 0 <= k < i ==> seen_next[k] == seen[k]);
            }
            match state {
                TargetState::InFlight { .. } => {
                    in_flight += 1;
                    finished = false;
                    assert(!seen_next[i as int].is_terminal());
                },
                TargetState::Pending { attempt, not_before } => {
                    finished = false;
                    assert(!seen_next[i as int].is_terminal());
                    if ready.is_none() && not_before <= now {
                        ready = Some((i, attempt));
                    }
                    if not_before < wake {
                        wake = not_before;
                        assert(seen_next[i as int] == (TargetState::Pending {
                            attempt: seen_next[i as int]->Pending_attempt,
                            not_before: wake,
                        }));
                    }
                },
                _ => {},
            }
            proof {
                if finished {
                    assert forall|k: int| 0 <= k < seen_next.len() implies (
                    #[trigger] seen_next[k]).is_terminal() by {
                        if k < i {
                            assert(seen[k].is_terminal());
                        }
                    }
                } else {
                    if all_terminal(seen_next) {
                        assert forall|k: int| 0 <= k < seen.len() implies (
                        #[trigger] seen[k]).is_terminal() by {
                            assert(seen_next[k].is_terminal());
                        }
                        assert(seen_next[i as int].is_terminal());
                    }
                }
                assert(is_earliest_wake(seen_next, parts.deadline_at, wake)) by {
                    assert forall|j: int| 0 <= j < seen_next.len() implies ((
                    #[trigger] seen_next[j]) matches TargetState::Pending { not_before, .. }
                        ==> wake <= not_before) by {
                        if j < i {
                            assert(seen[j] == seen_next[j]);
                        }
                    }
                    if wake != parts.deadline_at {
                        if state matches TargetState::Pending { not_before, .. } && not_before
                            == wake {
                            assert(seen_next[i as int] == (TargetState::Pending {
                                attempt: seen_next[i as int]->Pending_attempt,
                                not_before: wake,
                            }));
                        } else {
                            let j = choose|j: int|
                                0 <= j < seen.len() && (#[trigger] seen[j]) == (
                                TargetState::Pending {
                                    attempt: seen[j]->Pending_attempt,
                                    not_before: wake,
                                });
                            assert(seen_next[j] == (TargetState::Pending {
                                attempt: seen_next[j]->Pending_attempt,
                                not_before: wake,
                            }));
                        }
                    }
                }
                match ready {
                    Some((r, attempt)) => {
                        assert(seen_next[r as int].is_ready(now));
                        assert forall|j: int| 0 <= j < r implies !(
                        #[trigger] seen_next[j]).is_ready(now) by {
                            assert(seen[j] == seen_next[j]);
                        }
                    },
                    None => {
                        assert forall|j: int| 0 <= j < seen_next.len() implies !(
                        #[trigger] seen_next[j]).is_ready(now) by {
                            if j < i {
                                assert(seen[j] == seen_next[j]);
                            }
                        }
                    },
                }
            }
            i += 1;
        }
        assert(parts.states@.take(n as int) == parts.states@);
        if finished {
            return Action::Finished;
        }
        if now >= parts.deadline_at {
            Self::expire_all(parts, now);
            return Action::Finished;
        }
        if in_flight < parts.policy.concurrency_limit {
            match ready {
                Some((target, attempt)) => {
                    let remaining = parts.deadline_at - now;
                    let timeout_ms = if remaining < parts.policy.timeout_per_attempt_ms {
                        remaining
                    } else {
                        parts.policy.timeout_per_attempt_ms
                    };
                    parts.states.set(target, TargetState::InFlight { attempt, started_at: now });
                    proof {
                        lemma_started_wf(before, target as int, now);
                        assert(parts@.states =~= before.started(target as int, now).states);
                    }
                    Action::Start { target, attempt, timeout_ms }
                },
                None => {
                    proof {
                        if wake != parts.deadline_at {
                            let j = choose|j: int|
                                0 <= j < before.states.len() && (#[trigger] before.states[j]) == (
                                TargetState::Pending {
                                    attempt: before.states[j]->Pending_attempt,
                                    not_before: wake,
                                });
                            assert(!before.states[j].is_ready(now));
                        }
                    }
                    Action::WaitUntil { until: wake }
                },
            }
        } else {
            Action::WaitUntil { until: parts.deadline_at }
        }
    }
}

} // verus!
