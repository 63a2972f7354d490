//! The probe policy: timeouts, retries, backoff, concurrency and the batch
//! deadline. All durations and instants are in milliseconds.

use vstd::prelude::*;
use vstd::arithmetic::power2::{lemma2_to64, lemma_pow2_strictly_increases, lemma_pow2_unfold, pow2};

verus! {

/// How long to wait before retrying a target after a failed attempt.
#[derive(Clone, Copy, Debug, PartialEq, Eq, Structural)]
pub enum Backoff {
    /// The same delay after every failure.
    Fixed { delay_ms: u64 },
    /// `base_ms` after the first failure, doubling with each further failure,
    /// never more than `ceiling_ms`.
    Exponential { base_ms: u64, ceiling_ms: u64 },
}

/// The lesser of two naturals.
pub open spec fn min_nat(a: nat, b: nat) -> nat {
    if a <= b {
        a
    } else {
        b
    }
}

/// How often the base delay has doubled when attempt number `attempt`
/// fails: not at all for the first attempt, once for the second, and so on.
pub open spec fn doublings(attempt: nat) -> nat {
    if attempt >= 1 {
        (attempt - 1) as nat
    } else {
        0
    }
}

/// The delay that follows the failure of attempt number `attempt`. Attempts
/// are counted from one.
pub open spec fn backoff_delay(backoff: Backoff, attempt: nat) -> nat {
    match backoff {
        Backoff::Fixed { delay_ms } => delay_ms as nat,
        Backoff::Exponential { base_ms, ceiling_ms } => min_nat(
            ceiling_ms as nat,
            base_ms as nat * pow2(doublings(attempt)),
        ),
    }
}

/// Powers of two never shrink.
pub proof fn lemma_pow2_monotonic(a: nat, b: nat)
    requires
        a <= b,
    ensures
        1 <= pow2(a) <= pow2(b),
{
    lemma2_to64();
    if 0 < a {
        lemma_pow2_strictly_increases(0, a);
    }
    if a < b {
        lemma_pow2_strictly_increases(a, b);
    }
}

/// The delay never exceeds the ceiling of an exponential backoff, and never
/// shrinks from one failure to the next.
pub proof fn lemma_backoff_bounded_and_monotonic(backoff: Backoff, a: nat, b: nat)
    requires
        a <= b,
    ensures
        backoff_delay(backoff, a) <= backoff_delay(backoff, b),
        backoff matches Backoff::Exponential { ceiling_ms, .. } ==> backoff_delay(backoff, b)
            <= ceiling_ms,
        backoff_delay(backoff, b) <= u64::MAX,
{
    match backoff {
        Backoff::Fixed { .. } => {},
        Backoff::Exponential { base_ms, ceiling_ms } => {
            lemma_pow2_monotonic(doublings(a), doublings(b));
            let pa = pow2(doublings(a));
            let pb = pow2(doublings(b));
            assert(base_ms as nat * pa <= base_ms as nat * pb) by (nonlinear_arith)
                requires
                    pa <= pb,
            ;
        },
    }
}

impl Backoff {
    /// The delay that follows the failure of attempt number `attempt`.
    pub fn delay(&self, attempt: u64) -> (d: u64)
        ensures
            d == backoff_delay(*self, attempt as nat),
    {
        match *self {
            Backoff::Fixed { delay_ms } => delay_ms,
            Backoff::Exponential { base_ms, ceiling_ms } => {
                let ghost exponent = doublings(attempt as nat);
                if base_ms == 0 {
                    assert(base_ms as nat * pow2(exponent) == 0) by (nonlinear_arith)
                        requires
                            base_ms == 0,
                    ;
                    return 0;
                }
                if base_ms >= ceiling_ms {
                    proof {
                        lemma_pow2_monotonic(0, exponent);
                        let p = pow2(exponent);
                        assert(base_ms as nat * p >= base_ms as nat) by (nonlinear_arith)
                            requires
                                p >= 1,
                        ;
                    }
                    return ceiling_ms;
                }
                // From a base of at least one the ceiling is reached after
                // at most sixty-four doublings.
                let mut d: u64 = base_ms;
                let mut k: u64 = 0;
                proof {
                    lemma2_to64();
                }
                assert(base_ms as nat * pow2(0) == base_ms as nat) by (nonlinear_arith)
                    requires
                        pow2(0) == 1,
                ;
                while k + 1 < attempt && d < ceiling_ms
                    invariant
                        k <= exponent,
                        exponent == doublings(attempt as nat),
                        base_ms < ceiling_ms,
                        d == min_nat(ceiling_ms as nat, base_ms as nat * pow2(k as nat)),
                    decreases attempt - k,
                {
                    proof {
                        lemma_pow2_unfold((k + 1) as nat);
                        assert(base_ms as nat * pow2((k + 1) as nat) == 2 * (base_ms as nat
                            * pow2(k as nat))) by (nonlinear_arith)
                            requires
                                pow2((k + 1) as nat) == 2 * pow2(k as nat),
                        ;
                    }
                    d = if d > ceiling_ms / 2 {
                        ceiling_ms
                    } else if d * 2 > ceiling_ms {
                        ceiling_ms
                    } else {
                        d * 2
                    };
                    k = k + 1;
                }
                proof {
                    if k < exponent {
                        // The ceiling was reached early; it holds from then on.
                        lemma_pow2_monotonic(k as nat, exponent);
                        let pk = pow2(k as nat);
                        let pa = pow2(exponent);
                        assert(base_ms as nat * pk <= base_ms as nat * pa) by (nonlinear_arith)
                            requires
                                pk <= pa,
                        ;
                    }
                }
                d
            },
        }
    }
}

/// Why a policy cannot be used.
#[derive(Clone, Copy, Debug, PartialEq, Eq, Structural)]
pub enum PolicyError {
    /// `concurrency_limit` is zero: nothing could ever be probed.
    ZeroConcurrency,
}

/// How a batch of probes is to be run.
#[derive(Clone, Copy, Debug, PartialEq, Eq, Structural)]
pub struct ProbePolicy {
    /// How long one attempt may take.
    pub timeout_per_attempt_ms: u64,
    /// How many times a failed target is tried again.
    pub max_retries: u32,
    /// The pause between a failure and the retry.
    pub backoff: Backoff,
    /// How many attempts may be in flight at once; at least one.
    pub concurrency_limit: usize,
    /// How long the whole batch may take.
    pub batch_deadline_ms: u64,
}

impl ProbePolicy {
    /// The error that [`ProbePolicy::validate`] reports, if any.
    pub open spec fn defect(&self) -> Option<PolicyError> {
        if self.concurrency_limit == 0 {
            Some(PolicyError::ZeroConcurrency)
        } else {
            None
        }
    }

    /// A policy that a batch can run under.
    pub open spec fn valid(&self) -> bool {
        self.defect() is None
    }

    /// Checks the policy, naming the first defect found.
    pub fn validate(&self) -> (r: Result<(), PolicyError>)
        ensures
            r == match self.defect() {
                Some(e) => Err::<(), PolicyError>(e),
                None => Ok(()),
            },
    {
        if self.concurrency_limit == 0 {
            Err(PolicyError::ZeroConcurrency)
        } else {
            Ok(())
        }
    }

    /// The greatest attempt number that any target can reach.
    pub open spec fn max_attempts(&self) -> nat {
        self.max_retries as nat + 1
    }
}

} // verus!
