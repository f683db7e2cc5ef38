use honeycomb_sink::finalizer::{FinalizeWrite, Registry};
use honeycomb_sink::DeliveryStatus;

#[test]
fn first_write_wins_and_second_is_flagged() {
    let mut r = Registry::new();
    let h = r.register();
    assert_eq!(r.status(h), DeliveryStatus::Pending);
    assert_eq!(r.finalize(h, DeliveryStatus::Delivered), FinalizeWrite::Recorded);
    assert_eq!(r.status(h), DeliveryStatus::Delivered);
    // A second terminal write never changes the recorded outcome, and the
    // caller is told it was redundant.
    assert_eq!(r.finalize(h, DeliveryStatus::Dropped), FinalizeWrite::AlreadyFinalized);
    assert_eq!(r.status(h), DeliveryStatus::Delivered);
    assert_eq!(r.finalize(h, DeliveryStatus::Delivered), FinalizeWrite::AlreadyFinalized);
    assert_eq!(r.status(h), DeliveryStatus::Delivered);
}

#[test]
fn dropped_first_write_also_wins() {
    let mut r = Registry::new();
    let h = r.register();
    assert_eq!(r.finalize(h, DeliveryStatus::Dropped), FinalizeWrite::Recorded);
    assert_eq!(r.finalize(h, DeliveryStatus::Delivered), FinalizeWrite::AlreadyFinalized);
    assert_eq!(r.status(h), DeliveryStatus::Dropped);
}

#[test]
fn counts_partition_the_registered_events() {
    let mut r = Registry::new();
    let h0 = r.register();
    let h1 = r.register();
    let h2 = r.register();
    let h3 = r.register();
    r.finalize(h0, DeliveryStatus::Delivered);
    r.finalize(h1, DeliveryStatus::Dropped);
    r.finalize(h2, DeliveryStatus::Delivered);
    assert_eq!(r.count_delivered(), 2);
    assert_eq!(r.count_dropped(), 1);
    assert_eq!(r.status(h3), DeliveryStatus::Pending);
    assert_eq!(r.len(), 4);
}

#[test]
fn handles_are_assigned_in_registration_order() {
    let mut r = Registry::new();
    assert_eq!(r.register(), 0);
    assert_eq!(r.register(), 1);
    assert_eq!(r.register(), 2);
}
