//! Delivery core of a telemetry sink: size-aware batching of an event
//! stream, per-batch request building with failure isolation, a driver
//! with bounded concurrency and classified retries, and write-once
//! finalization of every event's terminal outcome.

use vstd::prelude::*;

pub mod batcher;
pub mod driver;
pub mod pipeline;
pub mod retry;
pub mod sink;
pub mod finalizer;

verus! {

/// Terminal delivery outcome recorded for one event.
#[derive(Clone, Copy, PartialEq, Eq, Structural, Debug)]
pub enum DeliveryStatus {
    Pending,
    Delivered,
    Dropped,
}

} // verus!
