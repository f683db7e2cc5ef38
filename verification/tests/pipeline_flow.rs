use honeycomb_sink::batcher::BatcherSettings;
use honeycomb_sink::driver::DriverSettings;
use honeycomb_sink::pipeline::{OutcomeKind, Pipeline, Record};
use honeycomb_sink::retry::{Response, RetrySettings, TransportError, TransportErrorKind};
use honeycomb_sink::DeliveryStatus;

fn pipeline(max_bytes: usize, concurrency: Option<usize>, max_attempts: u32) -> Pipeline {
    Pipeline::new(
        BatcherSettings { max_bytes, max_events: 100, max_linger_ms: 1_000 },
        DriverSettings {
            concurrency_limit: concurrency,
            retry: RetrySettings {
                max_attempts,
                backoff_base_ms: 100,
                backoff_max_ms: 10_000,
            },
        },
    )
}

fn ok_response() -> Result<Response, TransportError> {
    Ok(Response { bytes_sent: 10 })
}

fn transport_err(kind: TransportErrorKind) -> Result<Response, TransportError> {
    Err(TransportError { kind })
}

#[test]
fn build_failure_drops_whole_batch_and_sends_nothing() {
    // A batch whose build fails finalizes both its events as dropped, emits
    // one error record, and never reaches the driver.
    let mut p = pipeline(1_000, None, 3);
    let r1 = p.push_event(b"one".to_vec(), 10, 0);
    let r2 = p.push_event(b"two".to_vec(), 10, 1);
    let id = p.flush_open(2).expect("two events were open");
    let k = p.find_build(id).expect("batch awaits building");
    let rec = p.on_build_err(k);
    assert_eq!(rec.kind, OutcomeKind::BuildFailure);
    assert_eq!(rec.event_count, 2);
    assert_eq!(rec.byte_size, 20);
    assert_eq!(p.status_of(r1.handle), DeliveryStatus::Dropped);
    assert_eq!(p.status_of(r2.handle), DeliveryStatus::Dropped);
    // No transport call can occur for that batch: nothing is dispatchable.
    assert!(p.next_dispatch(3).is_none());
}

#[test]
fn two_retryable_errors_then_success_delivers_on_third_attempt() {
    // Retryable twice then success with three attempts allowed: the events
    // deliver, and the sink sees two retry records then one delivery.
    let mut p = pipeline(1_000, None, 3);
    let r1 = p.push_event(b"a".to_vec(), 5, 0);
    let r2 = p.push_event(b"b".to_vec(), 5, 0);
    let id = p.flush_open(0).expect("flush at stream end");
    let k = p.find_build(id).unwrap();
    p.on_build_ok(k, b"a\nb".to_vec(), 0);

    let mut records: Vec<Record> = Vec::new();
    let mut now: u64 = 0;

    let order1 = p.next_dispatch(now).expect("first attempt dispatches");
    assert_eq!(order1.attempt, 1);
    records.push(
        p.on_attempt_complete(order1.attempt_id, transport_err(TransportErrorKind::Timeout),
            now, 0).unwrap(),
    );
    assert_eq!(p.status_of(r1.handle), DeliveryStatus::Pending);

    now += 100; // first backoff delay with zero jitter
    let order2 = p.next_dispatch(now).expect("retry eligible after its delay");
    assert_eq!(order2.attempt, 2);
    records.push(
        p.on_attempt_complete(order2.attempt_id, transport_err(TransportErrorKind::Timeout),
            now, 0).unwrap(),
    );

    now += 200; // second backoff delay doubles
    let order3 = p.next_dispatch(now).expect("second retry eligible");
    assert_eq!(order3.attempt, 3);
    records.push(p.on_attempt_complete(order3.attempt_id, ok_response(), now, 0).unwrap());

    assert_eq!(p.status_of(r1.handle), DeliveryStatus::Delivered);
    assert_eq!(p.status_of(r2.handle), DeliveryStatus::Delivered);
    let retries = records.iter().filter(|r| r.kind == OutcomeKind::Retrying).count();
    let delivered = records.iter().filter(|r| r.kind == OutcomeKind::Delivered).count();
    assert_eq!(retries, 2);
    assert_eq!(delivered, 1);
    assert_eq!(records[0].error, Some(TransportErrorKind::Timeout));
    assert!(p.next_dispatch(now + 10_000).is_none(), "nothing left to send");
}

#[test]
fn retry_is_not_eligible_before_its_backoff_delay() {
    let mut p = pipeline(1_000, None, 3);
    p.push_event(b"a".to_vec(), 5, 0);
    let id = p.flush_open(0).unwrap();
    let k = p.find_build(id).unwrap();
    p.on_build_ok(k, b"a".to_vec(), 0);
    let order = p.next_dispatch(0).unwrap();
    let rec = p
        .on_attempt_complete(order.attempt_id, transport_err(TransportErrorKind::Throttled), 0, 0)
        .unwrap();
    assert_eq!(rec.kind, OutcomeKind::Retrying);
    assert_eq!(rec.delay_ms, 100);
    assert!(p.next_dispatch(99).is_none(), "delay not yet elapsed");
    assert!(p.next_dispatch(100).is_some(), "eligible exactly at the delay");
}

#[test]
fn fatal_error_drops_immediately_without_retry() {
    // A non-retryable outcome on the first attempt finalizes the events as
    // dropped at once; nothing is rescheduled.
    let mut p = pipeline(1_000, None, 3);
    let r1 = p.push_event(b"x".to_vec(), 4, 0);
    let id = p.flush_open(0).unwrap();
    let k = p.find_build(id).unwrap();
    p.on_build_ok(k, b"x".to_vec(), 0);
    let order = p.next_dispatch(0).unwrap();
    let rec = p
        .on_attempt_complete(order.attempt_id, transport_err(TransportErrorKind::Rejected), 0, 0)
        .unwrap();
    assert_eq!(rec.kind, OutcomeKind::Fatal);
    assert_eq!(rec.error, Some(TransportErrorKind::Rejected));
    assert_eq!(p.status_of(r1.handle), DeliveryStatus::Dropped);
    assert!(p.next_dispatch(100_000).is_none(), "no retry was scheduled");
}

#[test]
fn retryable_errors_exhaust_attempts_then_drop() {
    let mut p = pipeline(1_000, None, 2);
    let r1 = p.push_event(b"x".to_vec(), 4, 0);
    let id = p.flush_open(0).unwrap();
    let k = p.find_build(id).unwrap();
    p.on_build_ok(k, b"x".to_vec(), 0);
    let o1 = p.next_dispatch(0).unwrap();
    let rec1 = p
        .on_attempt_complete(o1.attempt_id, transport_err(TransportErrorKind::Timeout), 0, 0)
        .unwrap();
    assert_eq!(rec1.kind, OutcomeKind::Retrying);
    let o2 = p.next_dispatch(100).unwrap();
    assert_eq!(o2.attempt, 2);
    let rec2 = p
        .on_attempt_complete(o2.attempt_id, transport_err(TransportErrorKind::Timeout), 100, 0)
        .unwrap();
    assert_eq!(rec2.kind, OutcomeKind::Fatal, "max attempts reached");
    assert_eq!(p.status_of(r1.handle), DeliveryStatus::Dropped);
}

#[test]
fn concurrency_limit_of_one_serializes_requests() {
    // With one slot, the second request's transport call cannot start until
    // the first has reached a terminal state.
    let mut p = pipeline(1_000, Some(1), 3);
    p.push_event(b"a".to_vec(), 5, 0);
    let id1 = p.flush_open(0).unwrap();
    p.push_event(b"b".to_vec(), 5, 1);
    let id2 = p.flush_open(1).unwrap();
    let k1 = p.find_build(id1).unwrap();
    p.on_build_ok(k1, b"a".to_vec(), 0);
    let k2 = p.find_build(id2).unwrap();
    p.on_build_ok(k2, b"b".to_vec(), 1);

    let first = p.next_dispatch(2).expect("slot free for the first request");
    assert!(p.next_dispatch(2).is_none(), "slot taken: second must wait");
    p.on_attempt_complete(first.attempt_id, ok_response(), 3, 0).unwrap();
    let second = p.next_dispatch(3).expect("slot freed by completion");
    assert_ne!(first.attempt_id, second.attempt_id);
    assert_eq!(second.body, b"b".to_vec());
}

#[test]
fn submission_order_is_kept_under_fifo() {
    let mut p = pipeline(1_000, Some(1), 3);
    p.push_event(b"a".to_vec(), 5, 0);
    let id1 = p.flush_open(0).unwrap();
    p.push_event(b"b".to_vec(), 5, 1);
    let id2 = p.flush_open(1).unwrap();
    let k1 = p.find_build(id1).unwrap();
    p.on_build_ok(k1, b"first".to_vec(), 5);
    let k2 = p.find_build(id2).unwrap();
    p.on_build_ok(k2, b"second".to_vec(), 6);
    let order = p.next_dispatch(7).unwrap();
    assert_eq!(order.body, b"first".to_vec(), "earlier submission dispatches first");
}

#[test]
fn every_event_is_accounted_for_once_drained() {
    // Mixed fates over several batches: delivered plus dropped equals the
    // number of events that entered, with nothing pending.
    let mut p = pipeline(1_000, None, 2);
    let mut handles: Vec<usize> = Vec::new();

    // Batch 1: delivered.
    handles.push(p.push_event(b"a".to_vec(), 5, 0).handle);
    handles.push(p.push_event(b"b".to_vec(), 5, 0).handle);
    let id1 = p.flush_open(0).unwrap();
    // Batch 2: build failure.
    handles.push(p.push_event(b"c".to_vec(), 5, 1).handle);
    let id2 = p.flush_open(1).unwrap();
    // Batch 3: fatal transport error.
    handles.push(p.push_event(b"d".to_vec(), 5, 2).handle);
    handles.push(p.push_event(b"e".to_vec(), 5, 2).handle);
    let id3 = p.flush_open(2).unwrap();

    let k1 = p.find_build(id1).unwrap();
    p.on_build_ok(k1, b"ab".to_vec(), 3);
    let k2 = p.find_build(id2).unwrap();
    p.on_build_err(k2);
    let k3 = p.find_build(id3).unwrap();
    p.on_build_ok(k3, b"de".to_vec(), 4);

    let o1 = p.next_dispatch(5).unwrap();
    p.on_attempt_complete(o1.attempt_id, ok_response(), 5, 0).unwrap();
    let o2 = p.next_dispatch(6).unwrap();
    p.on_attempt_complete(o2.attempt_id, transport_err(TransportErrorKind::Rejected), 6, 0)
        .unwrap();
    assert!(p.next_dispatch(100_000).is_none(), "machine drained");

    let delivered = p.registry.count_delivered();
    let dropped = p.registry.count_dropped();
    assert_eq!(delivered + dropped, handles.len());
    assert_eq!(delivered, 2);
    assert_eq!(dropped, 3);
    for h in handles {
        assert_ne!(p.status_of(h), DeliveryStatus::Pending, "no event left unfinalized");
    }
}

#[test]
fn events_of_one_request_share_one_fate() {
    // Two events travel in one request; whatever the outcome, their
    // recorded statuses are equal.
    let mut p = pipeline(1_000, None, 3);
    let r1 = p.push_event(b"a".to_vec(), 5, 0);
    let r2 = p.push_event(b"b".to_vec(), 5, 0);
    let id = p.flush_open(0).unwrap();
    let k = p.find_build(id).unwrap();
    p.on_build_ok(k, b"ab".to_vec(), 0);
    let order = p.next_dispatch(0).unwrap();
    p.on_attempt_complete(order.attempt_id, ok_response(), 0, 0).unwrap();
    assert_eq!(p.status_of(r1.handle), p.status_of(r2.handle));
    assert_eq!(p.status_of(r1.handle), DeliveryStatus::Delivered);
}

#[test]
fn shutdown_drains_waiting_requests_as_dropped() {
    let mut p = pipeline(1_000, Some(1), 3);
    let r1 = p.push_event(b"a".to_vec(), 5, 0);
    let id1 = p.flush_open(0).unwrap();
    let r2 = p.push_event(b"b".to_vec(), 5, 1);
    let id2 = p.flush_open(1).unwrap();
    let k1 = p.find_build(id1).unwrap();
    p.on_build_ok(k1, b"a".to_vec(), 2);
    let k2 = p.find_build(id2).unwrap();
    p.on_build_ok(k2, b"b".to_vec(), 3);
    // One request goes in flight; shutdown drains the one still queued.
    let order = p.next_dispatch(4).unwrap();
    let rec = p.drain_one_waiting().expect("one request was still waiting");
    assert_eq!(rec.kind, OutcomeKind::ShutdownDrop);
    assert!(p.drain_one_waiting().is_none(), "queue empty after the drain");
    assert_eq!(p.status_of(r2.handle), DeliveryStatus::Dropped);
    // The in-flight attempt is allowed to finish and still delivers.
    p.on_attempt_complete(order.attempt_id, ok_response(), 5, 0).unwrap();
    assert_eq!(p.status_of(r1.handle), DeliveryStatus::Delivered);
}

#[test]
fn completion_with_unknown_attempt_id_changes_nothing() {
    let mut p = pipeline(1_000, None, 3);
    assert!(p.on_attempt_complete(12345, ok_response(), 0, 0).is_none());
}

#[test]
fn jitter_flows_into_the_scheduled_retry_delay() {
    let mut p = pipeline(1_000, None, 3);
    p.push_event(b"a".to_vec(), 5, 0);
    let id = p.flush_open(0).unwrap();
    let k = p.find_build(id).unwrap();
    p.on_build_ok(k, b"a".to_vec(), 0);
    let order = p.next_dispatch(0).unwrap();
    let rec = p
        .on_attempt_complete(order.attempt_id, transport_err(TransportErrorKind::Timeout), 0, 42)
        .unwrap();
    // raw delay 100, jitter contributes 42 % 101 = 42.
    assert_eq!(rec.delay_ms, 142);
    assert!(p.next_dispatch(141).is_none());
    assert!(p.next_dispatch(142).is_some());
}
