//! Size-aware batching of the live event stream.
//!
//! Events are appended to the open batch in arrival order. The open batch is
//! flushed when its estimated byte size or its event count would pass the
//! configured bounds, when the configured linger time since its first event
//! has elapsed, or when the input ends. A single event whose estimate alone
//! exceeds the byte bound is still emitted, alone in its own batch.

use vstd::prelude::*;

verus! {

/// Bounds on one batch: maximum estimated byte size, maximum event count,
/// and maximum linger time (milliseconds) since the first event arrived.
#[derive(Clone, Copy, PartialEq, Eq, Structural, Debug)]
pub struct BatcherSettings {
    pub max_bytes: usize,
    pub max_events: usize,
    pub max_linger_ms: u64,
}

impl BatcherSettings {
    /// A batch must be able to hold at least one event.
    pub open spec fn valid(&self) -> bool {
        &&& self.max_bytes >= 1
        &&& self.max_events >= 1
    }
}

/// One telemetry event as the core sees it: an opaque payload, the
/// caller-computed estimate of its encoded size, and its finalization handle.
#[derive(Clone, PartialEq, Eq, Debug)]
pub struct Event {
    pub payload: Vec<u8>,
    pub size_estimate: usize,
    pub handle: usize,
}

/// Sum of the size estimates of a sequence of events.
pub open spec fn sum_sizes(s: Seq<Event>) -> int
    decreases s.len(),
{
    if s.len() == 0 {
        0
    } else {
        sum_sizes(s.drop_last()) + s.last().size_estimate
    }
}

/// The finalization handles of a sequence of events, in order.
pub open spec fn handles_of(s: Seq<Event>) -> Seq<usize> {
    s.map_values(|e: Event| e.handle)
}

/// An ordered group of events flushed together; immutable once emitted.
#[derive(Clone, PartialEq, Eq, Debug)]
pub struct Batch {
    pub events: Vec<Event>,
    pub byte_size: usize,
    pub created_at_ms: u64,
}

impl Batch {
    /// The recorded byte size is the sum of the members' estimates, the
    /// batch is non-empty, and it respects `settings` except in the
    /// single-oversized-event case, which stands alone.
    pub open spec fn wf(&self, settings: BatcherSettings) -> bool {
        &&& self.events@.len() >= 1
        &&& self.byte_size == sum_sizes(self.events@)
        &&& self.events@.len() <= settings.max_events
        &&& self.byte_size <= settings.max_bytes || self.events@.len() == 1
    }
}

/// Accumulates events into the open batch and decides when to flush.
pub struct Batcher {
    pub settings: BatcherSettings,
    pub open_events: Vec<Event>,
    pub open_bytes: usize,
    pub open_since_ms: u64,
}

/// What one insertion produced: at most one batch flushed because the new
/// event did not fit, and at most one flushed because a bound was reached
/// exactly once the event was placed.
pub struct PushOutput {
    pub spilled: Option<Batch>,
    pub flushed: Option<Batch>,
}

impl Batcher {
    /// The open batch always has room left under both bounds; a batch that
    /// reaches a bound is flushed by the same call that filled it.
    pub open spec fn wf(&self) -> bool {
        &&& self.settings.valid()
        &&& self.open_bytes == sum_sizes(self.open_events@)
        &&& self.open_events@.len() < self.settings.max_events
        &&& self.open_bytes < self.settings.max_bytes
    }

    /// Handles currently held by the open batch.
    pub open spec fn held(&self) -> Seq<usize> {
        handles_of(self.open_events@)
    }

    pub fn new(settings: BatcherSettings) -> (b: Batcher)
        requires
            settings.valid(),
        ensures
            b.wf(),
            b.settings == settings,
            b.held() == Seq::<usize>::empty(),
            b.open_events@.len() == 0,
    {
        let b = Batcher {
            settings,
            open_events: Vec::new(),
            open_bytes: 0,
            open_since_ms: 0,
        };
        proof {
            assert(handles_of(b.open_events@) =~= Seq::<usize>::empty());
        }
        b
    }

    /// Appends `e` to the open batch. If `e` does not fit under the byte
    /// bound on top of the open events, the open batch is first flushed
    /// (`spilled`) and `e` starts a fresh one. If, once placed, `e`'s batch
    /// has reached the byte or count bound — in particular when `e` alone is
    /// oversized — that batch is flushed too (`flushed`). Every emitted
    /// batch is well formed and carries exactly the handles it consumed.
    pub fn push(&mut self, e: Event, now_ms: u64) -> (out: PushOutput)
        requires
            old(self).wf(),
        ensures
            final(self).wf(),
            final(self).settings == old(self).settings,
            // Which events went where: the held handles plus the flushed
            // ones are exactly the old held handles plus the new one.
            (match (out.spilled, out.flushed) {
                (Some(b1), Some(b2)) => {
                    &&& b1.events@ == old(self).open_events@
                    &&& b2.events@ =~= seq![e]
                    &&& final(self).open_events@.len() == 0
                    &&& old(self).open_events@.len() >= 1
                },
                (Some(b1), None) => {
                    &&& b1.events@ == old(self).open_events@
                    &&& final(self).open_events@ =~= seq![e]
                    &&& old(self).open_events@.len() >= 1
                },
                (None, Some(b2)) => {
                    &&& b2.events@ == old(self).open_events@.push(e)
                    &&& final(self).open_events@.len() == 0
                },
                (None, None) => {
                    final(self).open_events@ == old(self).open_events@.push(e)
                },
            }),
            (match out.spilled {
                Some(b) => b.wf(old(self).settings) && b.created_at_ms == now_ms,
                None => true,
            }),
            (match out.flushed {
                Some(b) => b.wf(old(self).settings) && b.created_at_ms == now_ms,
                None => true,
            }),
            // The new event is flushed at once exactly when it fills or
            // overflows a fresh batch on its own.
            out.flushed is Some <==> (e.size_estimate >= old(self).settings.max_bytes
                || old(self).settings.max_events == 1
                || (out.spilled is None
                    && (old(self).open_bytes + e.size_estimate >= old(self).settings.max_bytes
                        || old(self).open_events@.len() + 1 == old(self).settings.max_events))),
            // The open batch spills exactly when it is non-empty and the new
            // event would push it past the byte bound.
            out.spilled is Some <==> (old(self).open_events@.len() >= 1
                && old(self).open_bytes + e.size_estimate > old(self).settings.max_bytes),
    {
        let mut spilled: Option<Batch> = None;

        // Does e fit on top of the open events under the byte bound?
        // open_bytes < max_bytes, so max_bytes - open_bytes does not underflow.
        let overflows = e.size_estimate > self.settings.max_bytes - self.open_bytes;
        if self.open_events.len() > 0 && overflows {
            let mut events: Vec<Event> = Vec::new();
            core::mem::swap(&mut self.open_events, &mut events);
            let byte_size = self.open_bytes;
            self.open_bytes = 0;
            spilled = Some(Batch { events, byte_size, created_at_ms: now_ms });
            proof {
                assert(handles_of(self.open_events@) =~= Seq::<usize>::empty());
            }
        }

        if self.open_events.len() == 0 {
            self.open_since_ms = now_ms;
        }
        let e_size = e.size_estimate;
        // open_bytes + e_size <= max_bytes <= usize::MAX unless the open
        // batch is empty; an oversized lone event cannot overflow either
        // since open_bytes is then 0.
        let new_bytes = if self.open_events.len() == 0 {
            e_size
        } else {
            self.open_bytes + e_size
        };
        let ghost prev = self.open_events@;
        self.open_events.push(e);
        self.open_bytes = new_bytes;
        proof {
            assert(self.open_events@.drop_last() =~= prev);
            assert(self.open_events@.last() == e);
            assert(sum_sizes(self.open_events@) == sum_sizes(prev) + e.size_estimate);
        }

        let mut flushed: Option<Batch> = None;
        if self.open_bytes >= self.settings.max_bytes
            || self.open_events.len() >= self.settings.max_events {
            let mut events: Vec<Event> = Vec::new();
            core::mem::swap(&mut self.open_events, &mut events);
            let byte_size = self.open_bytes;
            self.open_bytes = 0;
            flushed = Some(Batch { events, byte_size, created_at_ms: now_ms });
            proof {
                assert(handles_of(self.open_events@) =~= Seq::<usize>::empty());
            }
        }

        PushOutput { spilled, flushed }
    }

    /// True when the open batch is non-empty and has lingered at least the
    /// configured time since its first event arrived.
    pub fn linger_elapsed(&self, now_ms: u64) -> (r: bool)
        ensures
            r <==> (self.open_events@.len() >= 1
                && now_ms >= self.open_since_ms
                && now_ms - self.open_since_ms >= self.settings.max_linger_ms),
    {
        self.open_events.len() > 0
            && now_ms >= self.open_since_ms
            && now_ms - self.open_since_ms >= self.settings.max_linger_ms
    }

    /// Flushes the open batch unconditionally: on linger expiry or when the
    /// input stream ends. Returns `None` only when nothing is open.
    pub fn flush(&mut self, now_ms: u64) -> (out: Option<Batch>)
        requires
            old(self).wf(),
        ensures
            final(self).wf(),
            final(self).settings == old(self).settings,
            final(self).open_events@.len() == 0,
            (match out {
                Some(b) => {
                    &&& b.events@ == old(self).open_events@
                    &&& b.wf(old(self).settings)
                    &&& b.created_at_ms == now_ms
                },
                None => old(self).open_events@.len() == 0,
            }),
            out is None ==> *final(self) == *old(self),
            out is Some <==> old(self).open_events@.len() >= 1,
    {
        if self.open_events.len() == 0 {
            return None;
        }
        let mut events: Vec<Event> = Vec::new();
        core::mem::swap(&mut self.open_events, &mut events);
        let byte_size = self.open_bytes;
        self.open_bytes = 0;
        proof {
            assert(handles_of(self.open_events@) =~= Seq::<usize>::empty());
        }
        Some(Batch { events, byte_size, created_at_ms: now_ms })
    }
}

} // verus!
