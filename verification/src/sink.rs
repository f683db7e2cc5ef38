//! The sink facade: one destination's bundle of capabilities.
//!
//! A destination supplies a transport service, batching bounds, and its
//! request builder; the sink carries them until a runner takes them apart
//! and drives the delivery core with them.

use vstd::prelude::*;
use crate::batcher::BatcherSettings;

verus! {

/// The destination's request-building capability. The wire encoding itself
/// is an external collaborator of the core: a runner turns each flushed
/// batch into an encoded body and reports the outcome back per batch.
#[derive(Clone, Copy, PartialEq, Eq, Structural, Debug)]
pub struct HoneycombRequestBuilder {
    /// Upper bound the builder enforces on one encoded request body.
    pub max_body_bytes: usize,
}

/// A stream sink for one destination: the transport service to send
/// through, the batching bounds, and the request builder.
pub struct HoneycombSink<S> {
    pub service: S,
    pub batch_settings: BatcherSettings,
    pub request_builder: HoneycombRequestBuilder,
}

impl<S> HoneycombSink<S> {
    /// Creates a new `HoneycombSink`.
    pub fn new(
        service: S,
        batch_settings: BatcherSettings,
        request_builder: HoneycombRequestBuilder,
    ) -> (s: Self)
        ensures
            s.service == service,
            s.batch_settings == batch_settings,
            s.request_builder == request_builder,
    {
        Self {
            service,
            batch_settings,
            request_builder,
        }
    }

    /// Hands the capabilities back to a runner.
    pub fn into_parts(self) -> (r: (S, BatcherSettings, HoneycombRequestBuilder))
        ensures
            r.0 == self.service,
            r.1 == self.batch_settings,
            r.2 == self.request_builder,
    {
        (self.service, self.batch_settings, self.request_builder)
    }
}

} // verus!
