//! Write-once recording of each event's terminal delivery outcome.
//!
//! Every event that enters the pipeline is registered here and receives a
//! handle. Exactly one terminal write (`Delivered` or `Dropped`) is accepted
//! per handle; a later write is ignored and flagged, so the first recorded
//! outcome is the one upstream observes.

use vstd::prelude::*;
use crate::DeliveryStatus;

verus! {

/// What a finalization write did: recorded the outcome, or hit a handle
/// that already carried a terminal outcome (a flagged programming error).
#[derive(Clone, Copy, PartialEq, Eq, Structural, Debug)]
pub enum FinalizeWrite {
    Recorded,
    AlreadyFinalized,
}

/// Number of slots in `s` that currently hold `Pending`.
pub open spec fn pending_count(s: Seq<DeliveryStatus>) -> int
    decreases s.len(),
{
    if s.len() == 0 {
        0
    } else {
        pending_count(s.drop_last()) + if s.last() is Pending { 1int } else { 0int }
    }
}

/// Number of slots in `s` that hold `Delivered`.
pub open spec fn delivered_count(s: Seq<DeliveryStatus>) -> int
    decreases s.len(),
{
    if s.len() == 0 {
        0
    } else {
        delivered_count(s.drop_last()) + if s.last() is Delivered { 1int } else { 0int }
    }
}

/// Number of slots in `s` that hold `Dropped`.
pub open spec fn dropped_count(s: Seq<DeliveryStatus>) -> int
    decreases s.len(),
{
    if s.len() == 0 {
        0
    } else {
        dropped_count(s.drop_last()) + if s.last() is Dropped { 1int } else { 0int }
    }
}

/// Every slot holds exactly one of the three statuses, so the three counts
/// partition the slots: no event is ever unaccounted for.
pub proof fn lemma_status_partition(s: Seq<DeliveryStatus>)
    ensures
        pending_count(s) + delivered_count(s) + dropped_count(s) == s.len(),
    decreases s.len(),
{
    if s.len() > 0 {
        lemma_status_partition(s.drop_last());
    }
}

/// A sequence with no `Pending` slot has pending count zero.
pub proof fn lemma_no_pending_means_zero(s: Seq<DeliveryStatus>)
    requires
        forall|i: int| 0 <= i < s.len() ==> !(s[i] is Pending),
    ensures
        pending_count(s) == 0,
    decreases s.len(),
{
    if s.len() > 0 {
        assert(forall|i: int| 0 <= i < s.drop_last().len() ==> s.drop_last()[i] == s[i]);
        lemma_no_pending_means_zero(s.drop_last());
    }
}

/// The per-event outcome registry: one status slot per registered event,
/// indexed by the handle that `register` returned.
pub struct Registry {
    pub slots: Vec<DeliveryStatus>,
}

impl Registry {
    /// The registry as the sequence of per-handle statuses.
    pub open spec fn view(&self) -> Seq<DeliveryStatus> {
        self.slots@
    }

    /// Handle `h` is registered and still awaits its terminal outcome.
    pub open spec fn is_pending(&self, h: usize) -> bool {
        h < self@.len() && self@[h as int] is Pending
    }

    pub fn new() -> (r: Registry)
        ensures
            r@ == Seq::<DeliveryStatus>::empty(),
    {
        Registry { slots: Vec::new() }
    }

    /// Admits one event and returns its finalization handle.
    pub fn register(&mut self) -> (h: usize)
        requires
            old(self)@.len() < usize::MAX,
        ensures
            h == old(self)@.len(),
            final(self)@ == old(self)@.push(DeliveryStatus::Pending),
    {
        let h = self.slots.len();
        self.slots.push(DeliveryStatus::Pending);
        h
    }

    pub fn len(&self) -> (n: usize)
        ensures
            n == self@.len(),
    {
        self.slots.len()
    }

    /// The recorded status of handle `h`.
    pub fn status(&self, h: usize) -> (s: DeliveryStatus)
        requires
            h < self@.len(),
        ensures
            s == self@[h as int],
    {
        self.slots[h]
    }

    /// Writes the terminal outcome of handle `h`. The first write wins: a
    /// handle that already carries a terminal outcome keeps it, and the
    /// caller is told the write was flagged as redundant.
    pub fn finalize(&mut self, h: usize, status: DeliveryStatus) -> (w: FinalizeWrite)
        requires
            h < old(self)@.len(),
            status is Delivered || status is Dropped,
        ensures
            old(self)@[h as int] is Pending ==> {
                &&& final(self)@ == old(self)@.update(h as int, status)
                &&& w == FinalizeWrite::Recorded
            },
            !(old(self)@[h as int] is Pending) ==> {
                &&& final(self)@ == old(self)@
                &&& w == FinalizeWrite::AlreadyFinalized
            },
    {
        match self.slots[h] {
            DeliveryStatus::Pending => {
                self.slots.set(h, status);
                FinalizeWrite::Recorded
            }
            _ => FinalizeWrite::AlreadyFinalized,
        }
    }

    /// Writes one terminal outcome to every handle of one request. The
    /// handles of a request are distinct and still pending, so every one of
    /// them records this same outcome: a request's events share one
    /// delivery fate, never split across outcomes.
    pub fn finalize_batch(&mut self, handles: &Vec<usize>, status: DeliveryStatus)
        requires
            handles@.no_duplicates(),
            forall|i: int| 0 <= i < handles@.len() ==> old(self).is_pending(#[trigger] handles@[i]),
            status is Delivered || status is Dropped,
        ensures
            final(self)@.len() == old(self)@.len(),
            forall|i: int| 0 <= i < handles@.len()
                ==> final(self)@[#[trigger] handles@[i] as int] == status,
            forall|h: int| 0 <= h < old(self)@.len() && !handles@.contains(h as usize)
                ==> final(self)@[h] == old(self)@[h],
    {
        let mut i: usize = 0;
        while i < handles.len()
            invariant
                0 <= i <= handles@.len(),
                self@.len() == old(self)@.len(),
                handles@.no_duplicates(),
                status is Delivered || status is Dropped,
                forall|k: int| 0 <= k < handles@.len() ==> (#[trigger] handles@[k]) < self@.len(),
                forall|k: int| 0 <= k < i ==> self@[#[trigger] handles@[k] as int] == status,
                forall|k: int| i <= k < handles@.len()
                    ==> self@[#[trigger] handles@[k] as int] is Pending,
                forall|h: int| 0 <= h < old(self)@.len() && !handles@.contains(h as usize)
                    ==> self@[h] == old(self)@[h],
            decreases handles@.len() - i,
        {
            let h = handles[i];
            let w = self.finalize(h, status);
            proof {
                assert(forall|k: int| 0 <= k < handles@.len() && k != i
                    ==> handles@[k] != handles@[i as int]);
            }
            i = i + 1;
        }
    }

    /// Number of handles finalized as `Delivered`, computed by a scan.
    pub fn count_delivered(&self) -> (n: usize)
        ensures
            n == delivered_count(self@),
    {
        let mut n: usize = 0;
        let mut i: usize = 0;
        while i < self.slots.len()
            invariant
                0 <= i <= self@.len(),
                n == delivered_count(self@.subrange(0, i as int)),
                n <= i,
            decreases self@.len() - i,
        {
            let is_delivered = match self.slots[i] {
                DeliveryStatus::Delivered => true,
                _ => false,
            };
            proof {
                assert(self@.subrange(0, i + 1).drop_last() == self@.subrange(0, i as int));
                assert(self@.subrange(0, i + 1).last() == self@[i as int]);
            }
            if is_delivered {
                n = n + 1;
            }
            i = i + 1;
        }
        proof {
            assert(self@.subrange(0, self@.len() as int) == self@);
        }
        n
    }

    /// Number of handles finalized as `Dropped`, computed by a scan.
    pub fn count_dropped(&self) -> (n: usize)
        ensures
            n == dropped_count(self@),
    {
        let mut n: usize = 0;
        let mut i: usize = 0;
        while i < self.slots.len()
            invariant
                0 <= i <= self@.len(),
                n == dropped_count(self@.subrange(0, i as int)),
                n <= i,
            decreases self@.len() - i,
        {
            let is_dropped = match self.slots[i] {
                DeliveryStatus::Dropped => true,
                _ => false,
            };
            proof {
                assert(self@.subrange(0, i + 1).drop_last() == self@.subrange(0, i as int));
                assert(self@.subrange(0, i + 1).last() == self@[i as int]);
            }
            if is_dropped {
                n = n + 1;
            }
            i = i + 1;
        }
        proof {
            assert(self@.subrange(0, self@.len() as int) == self@);
        }
        n
    }
}

} // verus!
