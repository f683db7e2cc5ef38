use honeycomb_sink::retry::{
    backoff_delay_ms, classify, raw_backoff_ms, Disposition, Response, RetrySettings,
    TransportError, TransportErrorKind,
};

fn settings(max_attempts: u32, base: u64, max: u64) -> RetrySettings {
    RetrySettings { max_attempts, backoff_base_ms: base, backoff_max_ms: max }
}

fn err(kind: TransportErrorKind) -> Result<Response, TransportError> {
    Err(TransportError { kind })
}

#[test]
fn raw_backoff_doubles_then_caps() {
    assert_eq!(raw_backoff_ms(100, 10_000, 1), 100);
    assert_eq!(raw_backoff_ms(100, 10_000, 2), 200);
    assert_eq!(raw_backoff_ms(100, 10_000, 3), 400);
    assert_eq!(raw_backoff_ms(100, 10_000, 4), 800);
    assert_eq!(raw_backoff_ms(100, 10_000, 8), 10_000);
    assert_eq!(raw_backoff_ms(100, 10_000, 63), 10_000);
}

#[test]
fn backoff_survives_huge_attempt_numbers() {
    // 100 * 2^(attempt-1) would overflow any machine word long before
    // attempt 200; the delay must simply sit at the cap.
    assert_eq!(raw_backoff_ms(100, 30_000, 200), 30_000);
    assert_eq!(backoff_delay_ms(100, 30_000, 200, 12345), 30_000);
}

#[test]
fn jitter_adds_at_most_the_raw_delay_and_respects_the_cap() {
    // raw = 100; jitter contributes jitter % 101.
    assert_eq!(backoff_delay_ms(100, 10_000, 1, 0), 100);
    assert_eq!(backoff_delay_ms(100, 10_000, 1, 50), 150);
    assert_eq!(backoff_delay_ms(100, 10_000, 1, 101), 100);
    assert_eq!(backoff_delay_ms(100, 10_000, 1, 100), 200);
    // Near the cap the jittered sum is clamped.
    assert_eq!(backoff_delay_ms(100, 150, 1, 100), 150);
}

#[test]
fn delays_never_decrease_across_attempts_whatever_the_jitter() {
    let jitters: [u64; 6] = [0, 99, 7, 123456, 1, 88];
    let mut prev: u64 = 0;
    for attempt in 1u32..=6 {
        let j = jitters[(attempt - 1) as usize];
        let d = backoff_delay_ms(100, 10_000, attempt, j);
        assert!(d >= prev, "delay shrank from {} to {} at attempt {}", prev, d, attempt);
        assert!(d <= 10_000);
        prev = d;
    }
}

#[test]
fn success_is_delivered() {
    let out: Result<Response, TransportError> = Ok(Response { bytes_sent: 42 });
    assert_eq!(classify(&out, 1, &settings(3, 100, 10_000), 0), Disposition::Delivered);
}

#[test]
fn transient_errors_are_retryable_with_backoff_delay() {
    let s = settings(3, 100, 10_000);
    for kind in [
        TransportErrorKind::Timeout,
        TransportErrorKind::Disconnected,
        TransportErrorKind::Throttled,
    ] {
        match classify(&err(kind), 1, &s, 0) {
            Disposition::Retryable { delay_ms } => assert_eq!(delay_ms, 100),
            other => panic!("expected retryable, got {:?}", other),
        }
    }
}

#[test]
fn rejection_is_fatal_immediately() {
    let s = settings(3, 100, 10_000);
    assert_eq!(classify(&err(TransportErrorKind::Rejected), 1, &s, 0), Disposition::Fatal);
}

#[test]
fn retryable_outcome_is_forced_fatal_at_max_attempts() {
    let s = settings(3, 100, 10_000);
    assert!(matches!(
        classify(&err(TransportErrorKind::Timeout), 2, &s, 0),
        Disposition::Retryable { .. }
    ));
    assert_eq!(classify(&err(TransportErrorKind::Timeout), 3, &s, 0), Disposition::Fatal);
    assert_eq!(classify(&err(TransportErrorKind::Timeout), 7, &s, 0), Disposition::Fatal);
}

#[test]
fn classification_is_deterministic_given_the_same_jitter() {
    let s = settings(5, 100, 10_000);
    let a = classify(&err(TransportErrorKind::Throttled), 2, &s, 77);
    let b = classify(&err(TransportErrorKind::Throttled), 2, &s, 77);
    assert_eq!(a, b);
}
