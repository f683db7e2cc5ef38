//! Per-attempt retry classification and backoff.
//!
//! The classifier maps the outcome of one transport attempt to one of
//! `Delivered`, `Retryable` with a delay, or `Fatal`. The delay follows
//! exponential backoff seeded from the attempt number, with jitter, bounded
//! by a configured maximum; once the attempt number reaches the configured
//! maximum, an otherwise retryable outcome is forced to `Fatal`. Given the
//! same inputs (jitter included) the classification is deterministic.

use vstd::prelude::*;

verus! {

/// Retry policy: how many attempts a request may consume in all, and the
/// base and cap (milliseconds) of the exponential backoff between them.
#[derive(Clone, Copy, PartialEq, Eq, Structural, Debug)]
pub struct RetrySettings {
    pub max_attempts: u32,
    pub backoff_base_ms: u64,
    pub backoff_max_ms: u64,
}

impl RetrySettings {
    /// Every request gets at least one attempt.
    pub open spec fn valid(&self) -> bool {
        self.max_attempts >= 1
    }
}

/// A successful transport attempt: how many bytes actually went out.
#[derive(Clone, Copy, PartialEq, Eq, Structural, Debug)]
pub struct Response {
    pub bytes_sent: usize,
}

/// Why a transport attempt failed; enough to decide retryability.
#[derive(Clone, Copy, PartialEq, Eq, Structural, Debug)]
pub enum TransportErrorKind {
    Timeout,
    Disconnected,
    Throttled,
    Rejected,
}

/// A failed transport attempt.
#[derive(Clone, Copy, PartialEq, Eq, Structural, Debug)]
pub struct TransportError {
    pub kind: TransportErrorKind,
}

/// Transient faults are worth another attempt; a rejection is not.
pub open spec fn kind_is_retryable(k: TransportErrorKind) -> bool {
    match k {
        TransportErrorKind::Timeout => true,
        TransportErrorKind::Disconnected => true,
        TransportErrorKind::Throttled => true,
        TransportErrorKind::Rejected => false,
    }
}

/// What the classifier decided for one completed attempt.
#[derive(Clone, Copy, PartialEq, Eq, Structural, Debug)]
pub enum Disposition {
    Delivered,
    Retryable { delay_ms: u64 },
    Fatal,
}

pub open spec fn pow2(n: nat) -> nat
    decreases n,
{
    if n == 0 {
        1
    } else {
        2 * pow2((n - 1) as nat)
    }
}

pub open spec fn min_int(a: int, b: int) -> int {
    if a < b {
        a
    } else {
        b
    }
}

/// Backoff before retrying after attempt number `attempt`, without jitter:
/// the base doubled per attempt already made, capped at the maximum.
pub open spec fn raw_backoff(base: u64, max: u64, attempt: u64) -> int
    recommends
        attempt >= 1,
{
    min_int(base * pow2((attempt - 1) as nat), max as int)
}

/// Backoff with jitter folded in: the jitter adds at most the raw delay
/// itself, and the whole stays bounded by the maximum.
pub open spec fn jittered_backoff(base: u64, max: u64, attempt: u64, jitter: u64) -> int
    recommends
        attempt >= 1,
{
    let raw = raw_backoff(base, max, attempt);
    min_int(raw + (jitter as int) % (raw + 1), max as int)
}

proof fn lemma_pow2_monotone(a: nat, b: nat)
    requires
        a <= b,
    ensures
        pow2(a) <= pow2(b),
        pow2(a) >= 1,
    decreases b,
{
    if b > 0 {
        if a <= b - 1 {
            lemma_pow2_monotone(a, (b - 1) as nat);
        } else {
            lemma_pow2_monotone((a - 1) as nat, (b - 1) as nat);
        }
    }
}

/// The raw backoff never decreases from one attempt to a later one.
proof fn lemma_raw_backoff_monotone(base: u64, max: u64, a: u64, b: u64)
    requires
        1 <= a <= b,
    ensures
        raw_backoff(base, max, a) <= raw_backoff(base, max, b),
        0 <= raw_backoff(base, max, a) <= max,
{
    lemma_pow2_monotone((a - 1) as nat, (b - 1) as nat);
    assert(base * pow2((a - 1) as nat) <= base * pow2((b - 1) as nat)) by (nonlinear_arith)
        requires pow2((a - 1) as nat) <= pow2((b - 1) as nat)
    ;
    assert(base * pow2((a - 1) as nat) >= 0) by (nonlinear_arith);
}

/// Retry delays are monotonically non-decreasing across attempts, whatever
/// jitter each attempt drew, and every delay is bounded by the configured
/// maximum.
pub proof fn lemma_backoff_monotone_bounded(
    base: u64,
    max: u64,
    a: u64,
    b: u64,
    jitter_a: u64,
    jitter_b: u64,
)
    requires
        1 <= a < b,
    ensures
        jittered_backoff(base, max, a, jitter_a) <= jittered_backoff(base, max, b, jitter_b),
        0 <= jittered_backoff(base, max, a, jitter_a) <= max,
        0 <= jittered_backoff(base, max, b, jitter_b) <= max,
{
    let ra = raw_backoff(base, max, a);
    let rb = raw_backoff(base, max, b);
    let rnext = raw_backoff(base, max, ((a + 1) as u64));
    lemma_raw_backoff_monotone(base, max, a, b);
    lemma_raw_backoff_monotone(base, max, ((a + 1) as u64), b);
    lemma_raw_backoff_monotone(base, max, a, ((a + 1) as u64));
    // The jitter share never exceeds the raw delay itself.
    assert((jitter_a as int) % (ra + 1) >= 0 && (jitter_a as int) % (ra + 1) <= ra);
    assert((jitter_b as int) % (rb + 1) >= 0);
    // One step of doubling: the next raw delay is twice this one, capped.
    lemma_pow2_monotone((a - 1) as nat, (a - 1) as nat);
    assert(pow2(((a + 1) - 1) as nat) == 2 * pow2((a - 1) as nat));
    assert(base * (2 * pow2((a - 1) as nat)) == 2 * (base * pow2((a - 1) as nat)))
        by (nonlinear_arith);
    // So jittered(a) <= min(2 * raw_uncapped(a), max) <= raw(a + 1) <= raw(b)
    // <= jittered(b).
    assert(jittered_backoff(base, max, a, jitter_a) <= min_int(2 * (base * pow2((a - 1) as nat)), max as int));
    assert(rnext == min_int(2 * (base * pow2((a - 1) as nat)), max as int));
    assert(jittered_backoff(base, max, b, jitter_b) >= rb);
}

/// Computes `raw_backoff` exactly, saturating at the cap instead of ever
/// overflowing.
pub fn raw_backoff_ms(base: u64, max_ms: u64, attempt: u32) -> (d: u64)
    requires
        attempt >= 1,
    ensures
        d == raw_backoff(base, max_ms, attempt as u64),
{
    let mut d: u64 = if base > max_ms { max_ms } else { base };
    let mut i: u32 = 1;
    proof {
        assert(pow2(0) == 1);
        assert(base * pow2(0) == base) by (nonlinear_arith)
            requires pow2(0) == 1
        ;
    }
    while i < attempt
        invariant
            1 <= i <= attempt,
            d == raw_backoff(base, max_ms, i as u64),
            d <= max_ms,
        decreases attempt - i,
    {
        proof {
            lemma_pow2_monotone(((i as u64) - 1) as nat, ((i as u64) - 1) as nat);
            assert(pow2((((i as u64) + 1) - 1) as nat) == 2 * pow2(((i as u64) - 1) as nat));
            assert(base * (2 * pow2(((i as u64) - 1) as nat))
                == 2 * (base * pow2(((i as u64) - 1) as nat))) by (nonlinear_arith);
        }
        if d < max_ms {
            // d is the uncapped value here, so doubling it tracks the spec.
            if d <= max_ms / 2 {
                d = d * 2;
            } else {
                d = max_ms;
            }
        }
        i = i + 1;
    }
    d
}

/// Computes `jittered_backoff` exactly: the jitter contributes
/// `jitter % (raw + 1)` and the sum is capped at the maximum.
pub fn backoff_delay_ms(base: u64, max_ms: u64, attempt: u32, jitter: u64) -> (d: u64)
    requires
        attempt >= 1,
    ensures
        d == jittered_backoff(base, max_ms, attempt as u64, jitter),
        d <= max_ms,
{
    let raw = raw_backoff_ms(base, max_ms, attempt);
    if raw >= max_ms {
        max_ms
    } else {
        let j = jitter % (raw + 1);
        if j > max_ms - raw {
            max_ms
        } else {
            raw + j
        }
    }
}

/// The classification of one completed attempt, as a function of the
/// outcome, the attempt number, the policy, and the jitter drawn.
pub open spec fn spec_classify(
    outcome: Result<Response, TransportError>,
    attempt: u32,
    settings: RetrySettings,
    jitter: u64,
) -> Disposition {
    match outcome {
        Ok(_) => Disposition::Delivered,
        Err(e) => {
            if !kind_is_retryable(e.kind) {
                Disposition::Fatal
            } else if attempt >= settings.max_attempts {
                Disposition::Fatal
            } else {
                Disposition::Retryable {
                    delay_ms: jittered_backoff(
                        settings.backoff_base_ms,
                        settings.backoff_max_ms,
                        attempt as u64,
                        jitter,
                    ) as u64,
                }
            }
        }
    }
}

/// Classifies one completed attempt. A success is `Delivered`; a
/// non-retryable error, or a retryable one on the last allowed attempt, is
/// `Fatal`; otherwise the attempt is `Retryable` after the backoff delay.
pub fn classify(
    outcome: &Result<Response, TransportError>,
    attempt: u32,
    settings: &RetrySettings,
    jitter: u64,
) -> (d: Disposition)
    requires
        attempt >= 1,
    ensures
        d == spec_classify(*outcome, attempt, *settings, jitter),
        (d matches Disposition::Retryable { delay_ms } ==> delay_ms <= settings.backoff_max_ms),
        d is Retryable ==> attempt < settings.max_attempts,
{
    match outcome {
        Ok(_) => Disposition::Delivered,
        Err(e) => {
            let retryable = match e.kind {
                TransportErrorKind::Timeout => true,
                TransportErrorKind::Disconnected => true,
                TransportErrorKind::Throttled => true,
                TransportErrorKind::Rejected => false,
            };
            if !retryable {
                Disposition::Fatal
            } else if attempt >= settings.max_attempts {
                Disposition::Fatal
            } else {
                let delay_ms = backoff_delay_ms(
                    settings.backoff_base_ms,
                    settings.backoff_max_ms,
                    attempt,
                    jitter,
                );
                Disposition::Retryable { delay_ms }
            }
        }
    }
}

} // verus!
