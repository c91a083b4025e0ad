//! When a request to a daemon is tried again, and after how long.
use vstd::prelude::*;

verus! {

/// The kind of an I/O failure, as far as retrying is concerned.
#[derive(Clone, Copy, Debug, PartialEq, Eq)]
pub enum IoFault {
    NotFound,
    ConnectionRefused,
    ConnectionAborted,
    ConnectionReset,
    TimedOut,
    Interrupted,
    Other,
}

/// What went wrong with one attempt to reach a daemon.
#[derive(Clone, Copy, Debug, PartialEq, Eq)]
pub enum TransportFault {
    Timeout,
    Io(IoFault),
    Daemon,
    EnvDaemon,
    Serde,
    MissingResponse,
}

/// The longest `std::time::Duration`, in nanoseconds.
pub const MAX_DURATION_NANOS: u128 = 18_446_744_073_709_551_615_999_999_999;

/// How often a request is tried and how long to wait between tries.
#[derive(Clone, Copy, Debug)]
pub struct RequestTransport {
    pub max_attempts: u32,
    pub retry_delay_base_nanos: u128,
}

/// A fault that another attempt may cure: a timeout, or the endpoint not
/// (yet) answering.
pub open spec fn transient(fault: TransportFault) -> bool {
    match fault {
        TransportFault::Timeout => true,
        TransportFault::Io(kind) => kind != IoFault::Other,
        _ => false,
    }
}

/// The doubling applied before attempt `attempt + 1`: the base doubled once
/// per earlier retry, at most three times.
pub open spec fn backoff_shift(attempt: u32) -> nat {
    if attempt <= 1 { 0 } else if attempt - 1 >= 3 { 3 } else { (attempt - 1) as nat }
}

/// 2 to the power `k`, for the few shifts used here.
pub open spec fn pow2_small(k: nat) -> nat
    decreases k,
{
    if k == 0 { 1 } else { 2 * pow2_small((k - 1) as nat) }
}

/// The wait after failed attempt `attempt`: the base times two to the
/// shift, or the base itself when that product is no duration.
pub open spec fn retry_delay(base: u128, attempt: u32) -> nat {
    let scaled = base * pow2_small(backoff_shift(attempt));
    if scaled <= MAX_DURATION_NANOS { scaled as nat } else { base as nat }
}

/// What to do after a failed attempt.
#[derive(Clone, Copy, Debug, PartialEq, Eq)]
pub enum RetryDecision {
    /// Wait this long, then make attempt `attempts + 1`.
    Retry { attempts: u32, delay_nanos: u128 },
    /// Report the fault.
    GiveUp,
}

impl Default for RequestTransport {
    fn default() -> (r: Self)
        ensures
            r.max_attempts == 3,
            r.retry_delay_base_nanos == 100_000_000,
    {
        RequestTransport { max_attempts: 3, retry_delay_base_nanos: 100_000_000 }
    }
}

impl RequestTransport {
    /// Whether a fault is worth another attempt.
    pub fn should_retry(&self, fault: &TransportFault) -> (r: bool)
        ensures
            r == transient(*fault),
    {
        match fault {
            TransportFault::Timeout => true,
            TransportFault::Io(kind) => match kind {
                IoFault::Other => false,
                _ => true,
            },
            _ => false,
        }
    }

    /// The wait, in nanoseconds, after failed attempt `attempt`.
    pub fn retry_delay_for_attempt(&self, attempt: u32) -> (r: u128)
        requires
            self.retry_delay_base_nanos <= MAX_DURATION_NANOS,
        ensures
            r == retry_delay(self.retry_delay_base_nanos, attempt),
    {
        let shift: u32 = if attempt <= 1 { 0 } else if attempt - 1 >= 3 { 3 } else { attempt - 1 };
        let factor: u128 = if shift == 0 { 1 } else if shift == 1 { 2 } else if shift == 2 { 4 } else { 8 };
        assert(factor == pow2_small(backoff_shift(attempt))) by {
            reveal_with_fuel(pow2_small, 4);
        }
        let base = self.retry_delay_base_nanos;
        if base <= MAX_DURATION_NANOS / factor {
            assert(base * factor <= MAX_DURATION_NANOS) by (nonlinear_arith)
                requires
                    base <= MAX_DURATION_NANOS / factor,
                    factor > 0,
            ;
            base * factor
        } else {
            assert(base * factor > MAX_DURATION_NANOS) by (nonlinear_arith)
                requires
                    base > MAX_DURATION_NANOS / factor,
                    factor > 0,
            ;
            base
        }
    }

    /// The decision after attempt number `attempts` (counted from one) has
    /// failed with `fault`: give up once the attempts are spent or the
    /// fault is not transient, else wait and try again.
    pub fn after_failure(&self, attempts: u32, fault: &TransportFault) -> (r: RetryDecision)
        requires
            self.retry_delay_base_nanos <= MAX_DURATION_NANOS,
        ensures
            (attempts >= self.max_attempts || !transient(*fault)) ==> r == RetryDecision::GiveUp,
            (attempts < self.max_attempts && transient(*fault)) ==> r == (RetryDecision::Retry {
                attempts,
                delay_nanos: retry_delay(self.retry_delay_base_nanos, attempts) as u128,
            }),
    {
        if attempts >= self.max_attempts || !self.should_retry(fault) {
            RetryDecision::GiveUp
        } else {
            RetryDecision::Retry { attempts, delay_nanos: self.retry_delay_for_attempt(attempts) }
        }
    }
}

/// Which faults are worth another attempt: a timeout and every I/O failure
/// but an unclassified one (the endpoint not there yet, refusing, dropping
/// or resetting the connection, timing out, being interrupted); no daemon,
/// env daemon, encoding or missing-response fault.
pub proof fn lemma_transient_faults(kind: IoFault)
    ensures
        transient(TransportFault::Timeout),
        transient(TransportFault::Io(kind)) <==> kind != IoFault::Other,
        transient(TransportFault::Io(IoFault::NotFound)),
        transient(TransportFault::Io(IoFault::ConnectionRefused)),
        transient(TransportFault::Io(IoFault::ConnectionAborted)),
        transient(TransportFault::Io(IoFault::ConnectionReset)),
        transient(TransportFault::Io(IoFault::TimedOut)),
        transient(TransportFault::Io(IoFault::Interrupted)),
        !transient(TransportFault::Daemon),
        !transient(TransportFault::EnvDaemon),
        !transient(TransportFault::Serde),
        !transient(TransportFault::MissingResponse),
{
}

/// With the default 100 ms base, the waits after the first and second
/// failed attempts are 100 ms and 200 ms.
pub proof fn lemma_default_delays(attempts: u32)
    ensures
        attempts < 3 ==> retry_delay(100_000_000, attempts) == if attempts <= 1 { 100_000_000nat } else { 200_000_000nat },
{
    reveal_with_fuel(pow2_small, 3);
}

/// Backoff is bounded and never shrinks: from the first retry on, each wait
/// is at least the one before and at most eight times the base.
pub proof fn lemma_backoff_bounded_monotone(base: u128, a: u32, b: u32)
    requires
        1 <= a <= b,
        base * 8 <= MAX_DURATION_NANOS,
    ensures
        retry_delay(base, a) <= retry_delay(base, b),
        retry_delay(base, b) <= 8 * base,
        retry_delay(base, 1) == base,
{
    reveal_with_fuel(pow2_small, 4);
    assert(backoff_shift(1) == 0 && pow2_small(0) == 1);
    assert(base * 1 == base);
    assert(base * pow2_small(backoff_shift(a)) <= base * pow2_small(backoff_shift(b))) by (nonlinear_arith)
        requires
            pow2_small(backoff_shift(a)) <= pow2_small(backoff_shift(b)),
    ;
    assert(base * pow2_small(backoff_shift(b)) <= base * 8) by (nonlinear_arith)
        requires
            pow2_small(backoff_shift(b)) <= 8,
    ;
}

} // verus!
