use honeycomb_sink::batcher::{Batch, Batcher, BatcherSettings, Event};

fn settings(max_bytes: usize, max_events: usize, max_linger_ms: u64) -> BatcherSettings {
    BatcherSettings { max_bytes, max_events, max_linger_ms }
}

fn ev(size: usize, handle: usize) -> Event {
    Event { payload: vec![0u8; size], size_estimate: size, handle }
}

fn batch_sizes(b: &Batch) -> (usize, usize) {
    (b.events.len(), b.byte_size)
}

#[test]
fn three_events_split_two_then_one() {
    // Three events of 10 bytes each against a 25-byte bound: the batcher
    // emits a batch of two, and the flush at stream end emits the third.
    let mut b = Batcher::new(settings(25, 100, 1000));
    let out1 = b.push(ev(10, 0), 0);
    assert!(out1.spilled.is_none() && out1.flushed.is_none());
    let out2 = b.push(ev(10, 1), 1);
    assert!(out2.spilled.is_none() && out2.flushed.is_none());
    let out3 = b.push(ev(10, 2), 2);
    let spilled = out3.spilled.expect("third event must spill the open batch");
    assert_eq!(batch_sizes(&spilled), (2, 20));
    assert!(out3.flushed.is_none());
    let last = b.flush(3).expect("one event remains open");
    assert_eq!(batch_sizes(&last), (1, 10));
    assert_eq!(last.events[0].handle, 2);
    assert!(b.flush(4).is_none());
}

#[test]
fn oversized_event_isolated_in_own_batch() {
    // An event bigger than the byte bound is never dropped or split: it is
    // flushed immediately, alone.
    let mut b = Batcher::new(settings(25, 100, 1000));
    let out = b.push(ev(30, 7), 0);
    assert!(out.spilled.is_none());
    let flushed = out.flushed.expect("oversized event flushes at once");
    assert_eq!(batch_sizes(&flushed), (1, 30));
    assert_eq!(flushed.events[0].handle, 7);
}

#[test]
fn oversized_event_after_open_batch_spills_then_flushes() {
    let mut b = Batcher::new(settings(25, 100, 1000));
    assert!(b.push(ev(10, 0), 0).spilled.is_none());
    let out = b.push(ev(40, 1), 1);
    let spilled = out.spilled.expect("open batch spills first");
    assert_eq!(batch_sizes(&spilled), (1, 10));
    let flushed = out.flushed.expect("oversized event flushes alone");
    assert_eq!(batch_sizes(&flushed), (1, 40));
}

#[test]
fn event_count_bound_flushes_exactly_at_limit() {
    let mut b = Batcher::new(settings(1000, 2, 1000));
    assert!(b.push(ev(1, 0), 0).flushed.is_none());
    let out = b.push(ev(1, 1), 1);
    assert!(out.spilled.is_none());
    let flushed = out.flushed.expect("count bound reached");
    assert_eq!(batch_sizes(&flushed), (2, 2));
}

#[test]
fn byte_bound_reached_exactly_flushes() {
    let mut b = Batcher::new(settings(20, 100, 1000));
    assert!(b.push(ev(10, 0), 0).flushed.is_none());
    let out = b.push(ev(10, 1), 1);
    assert!(out.spilled.is_none(), "20 bytes fit exactly");
    let flushed = out.flushed.expect("byte bound reached exactly");
    assert_eq!(batch_sizes(&flushed), (2, 20));
}

#[test]
fn linger_elapses_only_after_configured_time() {
    let mut b = Batcher::new(settings(1000, 100, 50));
    assert!(!b.linger_elapsed(0));
    b.push(ev(1, 0), 10);
    assert!(!b.linger_elapsed(59));
    assert!(b.linger_elapsed(60));
    let flushed = b.flush(60).expect("linger flush");
    assert_eq!(flushed.events.len(), 1);
    assert!(!b.linger_elapsed(61), "nothing open any more");
}

#[test]
fn empty_flush_emits_nothing() {
    let mut b = Batcher::new(settings(25, 100, 1000));
    assert!(b.flush(0).is_none());
}
