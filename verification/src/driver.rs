//! The driver's request-scheduling state.
//!
//! Built requests wait here until a concurrency slot is free; completed
//! attempts release their slot and either finish or are rescheduled after a
//! backoff delay. A slot is never exceeded: the number of in-flight attempts
//! stays within the configured limit. When a slot frees, the waiting entry
//! dispatched next is the eligible one that has waited longest, with ties
//! broken in favor of first submissions over retries, then by submission
//! order.

use vstd::prelude::*;
use crate::retry::RetrySettings;

verus! {

/// Driver configuration: how many attempts may be in flight at once
/// (`None` means unbounded), and the retry policy.
#[derive(Clone, Copy, PartialEq, Eq, Structural, Debug)]
pub struct DriverSettings {
    pub concurrency_limit: Option<usize>,
    pub retry: RetrySettings,
}

impl DriverSettings {
    pub open spec fn valid(&self) -> bool {
        &&& self.retry.valid()
        &&& (self.concurrency_limit matches Some(n) ==> n >= 1)
    }

    /// Whether `k` attempts in flight still leave a free slot.
    pub open spec fn slot_free(&self, k: int) -> bool {
        match self.concurrency_limit {
            Some(n) => k < n,
            None => true,
        }
    }
}

/// A request waiting for a concurrency slot: either freshly built
/// (`attempt == 1`) or scheduled for retry (`attempt >= 2`, eligible only
/// once its backoff delay has elapsed).
#[derive(Clone, PartialEq, Eq, Debug)]
pub struct WaitingEntry {
    pub body: Vec<u8>,
    pub handles: Vec<usize>,
    pub event_count: usize,
    pub byte_size: usize,
    pub attempt: u32,
    pub eligible_at_ms: u64,
    pub waiting_since_ms: u64,
    pub is_retry: bool,
    pub seq_no: u64,
}

/// One dispatched attempt, awaiting its transport outcome.
#[derive(Clone, PartialEq, Eq, Debug)]
pub struct InFlightAttempt {
    pub attempt_id: u64,
    pub body: Vec<u8>,
    pub handles: Vec<usize>,
    pub event_count: usize,
    pub byte_size: usize,
    pub attempt: u32,
}

/// What the caller must hand to the transport for one attempt.
#[derive(Clone, PartialEq, Eq, Debug)]
pub struct DispatchOrder {
    pub attempt_id: u64,
    pub attempt: u32,
    pub body: Vec<u8>,
}

/// `a` is dispatched no later than `b`: it has waited at least as long,
/// with ties going to first submissions before retries, then to the lower
/// submission number.
pub open spec fn dispatch_before(a: WaitingEntry, b: WaitingEntry) -> bool {
    if a.waiting_since_ms != b.waiting_since_ms {
        a.waiting_since_ms < b.waiting_since_ms
    } else if a.is_retry != b.is_retry {
        !a.is_retry
    } else {
        a.seq_no <= b.seq_no
    }
}

pub struct Driver {
    pub settings: DriverSettings,
    pub waiting: Vec<WaitingEntry>,
    pub in_flight: Vec<InFlightAttempt>,
    pub next_attempt_id: u64,
    pub next_seq_no: u64,
}

impl Driver {
    /// Attempt numbers stay within the policy, the concurrency limit is
    /// respected, and identifiers are unique.
    pub open spec fn wf(&self) -> bool {
        &&& self.settings.valid()
        &&& (self.settings.concurrency_limit matches Some(n)
            ==> self.in_flight@.len() <= n)
        &&& forall|i: int| 0 <= i < self.waiting@.len() ==> {
            &&& 1 <= (#[trigger] self.waiting@[i]).attempt
            &&& self.waiting@[i].attempt <= self.settings.retry.max_attempts
            &&& (self.waiting@[i].is_retry <==> self.waiting@[i].attempt >= 2)
            &&& self.waiting@[i].seq_no < self.next_seq_no
        }
        &&& forall|i: int| 0 <= i < self.in_flight@.len() ==> {
            &&& 1 <= (#[trigger] self.in_flight@[i]).attempt
            &&& self.in_flight@[i].attempt <= self.settings.retry.max_attempts
            &&& self.in_flight@[i].attempt_id < self.next_attempt_id
        }
        &&& forall|i: int, j: int|
            0 <= i < self.in_flight@.len() && 0 <= j < self.in_flight@.len() && i != j
                ==> (#[trigger] self.in_flight@[i]).attempt_id
                    != (#[trigger] self.in_flight@[j]).attempt_id
        &&& forall|i: int, j: int|
            0 <= i < self.waiting@.len() && 0 <= j < self.waiting@.len() && i != j
                ==> (#[trigger] self.waiting@[i]).seq_no != (#[trigger] self.waiting@[j]).seq_no
    }

    pub fn new(settings: DriverSettings) -> (d: Driver)
        requires
            settings.valid(),
        ensures
            d.wf(),
            d.settings == settings,
            d.waiting@.len() == 0,
            d.in_flight@.len() == 0,
    {
        Driver {
            settings,
            waiting: Vec::new(),
            in_flight: Vec::new(),
            next_attempt_id: 0,
            next_seq_no: 0,
        }
    }

    /// Accepts a freshly built request into the submission queue; it will
    /// dispatch once a slot is free and nothing has waited longer.
    pub fn submit(
        &mut self,
        body: Vec<u8>,
        handles: Vec<usize>,
        event_count: usize,
        byte_size: usize,
        now_ms: u64,
    )
        requires
            old(self).wf(),
            old(self).next_seq_no < u64::MAX,
        ensures
            final(self).wf(),
            final(self).settings == old(self).settings,
            final(self).in_flight@ == old(self).in_flight@,
            final(self).waiting@.len() == old(self).waiting@.len() + 1,
            forall|i: int| 0 <= i < old(self).waiting@.len()
                ==> final(self).waiting@[i] == old(self).waiting@[i],
            final(self).waiting@.last() == (WaitingEntry {
                body,
                handles,
                event_count,
                byte_size,
                attempt: 1u32,
                eligible_at_ms: now_ms,
                waiting_since_ms: now_ms,
                is_retry: false,
                seq_no: old(self).next_seq_no,
            }),
    {
        let seq_no = self.next_seq_no;
        self.next_seq_no = self.next_seq_no + 1;
        self.waiting.push(WaitingEntry {
            body,
            handles,
            event_count,
            byte_size,
            attempt: 1,
            eligible_at_ms: now_ms,
            waiting_since_ms: now_ms,
            is_retry: false,
            seq_no,
        });
    }

    /// Reschedules a completed attempt whose outcome was retryable: the
    /// same request re-enters the queue as the next attempt, eligible once
    /// `delay_ms` has elapsed.
    pub fn schedule_retry(&mut self, finished: InFlightAttempt, delay_ms: u64, now_ms: u64)
        requires
            old(self).wf(),
            old(self).next_seq_no < u64::MAX,
            finished.attempt < old(self).settings.retry.max_attempts,
            finished.attempt >= 1,
        ensures
            final(self).wf(),
            final(self).settings == old(self).settings,
            final(self).in_flight@ == old(self).in_flight@,
            final(self).waiting@.len() == old(self).waiting@.len() + 1,
            forall|i: int| 0 <= i < old(self).waiting@.len()
                ==> final(self).waiting@[i] == old(self).waiting@[i],
            final(self).waiting@.last() == (WaitingEntry {
                body: finished.body,
                handles: finished.handles,
                event_count: finished.event_count,
                byte_size: finished.byte_size,
                attempt: (finished.attempt + 1) as u32,
                eligible_at_ms: saturating_add_spec(now_ms, delay_ms),
                waiting_since_ms: saturating_add_spec(now_ms, delay_ms),
                is_retry: true,
                seq_no: old(self).next_seq_no,
            }),
    {
        let seq_no = self.next_seq_no;
        self.next_seq_no = self.next_seq_no + 1;
        let eligible = saturating_add(now_ms, delay_ms);
        self.waiting.push(WaitingEntry {
            body: finished.body,
            handles: finished.handles,
            event_count: finished.event_count,
            byte_size: finished.byte_size,
            attempt: finished.attempt + 1,
            eligible_at_ms: eligible,
            waiting_since_ms: eligible,
            is_retry: true,
            seq_no,
        });
    }

    /// Picks which waiting entry to dispatch next: `None` when no slot is
    /// free or nothing is eligible yet; otherwise the index of an eligible
    /// entry that no other eligible entry beats under the fairness order.
    pub fn pick_dispatch(&self, now_ms: u64) -> (r: Option<usize>)
        requires
            self.wf(),
        ensures
            (match r {
                Some(k) => {
                    &&& k < self.waiting@.len()
                    &&& self.settings.slot_free(self.in_flight@.len() as int)
                    &&& self.waiting@[k as int].eligible_at_ms <= now_ms
                    &&& forall|j: int| 0 <= j < self.waiting@.len()
                        && (#[trigger] self.waiting@[j]).eligible_at_ms <= now_ms
                        ==> dispatch_before(self.waiting@[k as int], self.waiting@[j])
                },
                None => {
                    !self.settings.slot_free(self.in_flight@.len() as int)
                        || forall|j: int| 0 <= j < self.waiting@.len()
                            ==> (#[trigger] self.waiting@[j]).eligible_at_ms > now_ms
                },
            }),
    {
        let slot_free = match self.settings.concurrency_limit {
            Some(n) => self.in_flight.len() < n,
            None => true,
        };
        if !slot_free {
            return None;
        }
        let mut best: Option<usize> = None;
        let mut i: usize = 0;
        while i < self.waiting.len()
            invariant
                0 <= i <= self.waiting@.len(),
                (match best {
                    Some(k) => {
                        &&& k < i
                        &&& self.waiting@[k as int].eligible_at_ms <= now_ms
                        &&& forall|j: int| 0 <= j < i
                            && (#[trigger] self.waiting@[j]).eligible_at_ms <= now_ms
                            ==> dispatch_before(self.waiting@[k as int], self.waiting@[j])
                    },
                    None => forall|j: int| 0 <= j < i
                        ==> (#[trigger] self.waiting@[j]).eligible_at_ms > now_ms,
                }),
            decreases self.waiting@.len() - i,
        {
            let e = &self.waiting[i];
            if e.eligible_at_ms <= now_ms {
                let better = match best {
                    None => true,
                    Some(k) => {
                        let b = &self.waiting[k];
                        if e.waiting_since_ms != b.waiting_since_ms {
                            e.waiting_since_ms < b.waiting_since_ms
                        } else if e.is_retry != b.is_retry {
                            !e.is_retry
                        } else {
                            e.seq_no < b.seq_no
                        }
                    }
                };
                if better {
                    best = Some(i);
                }
            }
            i = i + 1;
        }
        best
    }

    /// Removes waiting entry `k` and puts it in flight under a fresh
    /// attempt identifier, returning what the transport must be handed.
    /// The remaining waiting entries are the old ones with `k` swapped out.
    pub fn dispatch_at(&mut self, k: usize) -> (order: DispatchOrder)
        requires
            old(self).wf(),
            k < old(self).waiting@.len(),
            old(self).settings.slot_free(old(self).in_flight@.len() as int),
            old(self).next_attempt_id < u64::MAX,
        ensures
            final(self).wf(),
            final(self).settings == old(self).settings,
            final(self).waiting@ == old(self).waiting@
                .update(k as int, old(self).waiting@.last()).drop_last(),
            final(self).in_flight@.len() == old(self).in_flight@.len() + 1,
            forall|i: int| 0 <= i < old(self).in_flight@.len()
                ==> final(self).in_flight@[i] == old(self).in_flight@[i],
            final(self).in_flight@.last() == (InFlightAttempt {
                attempt_id: old(self).next_attempt_id,
                body: old(self).waiting@[k as int].body,
                handles: old(self).waiting@[k as int].handles,
                event_count: old(self).waiting@[k as int].event_count,
                byte_size: old(self).waiting@[k as int].byte_size,
                attempt: old(self).waiting@[k as int].attempt,
            }),
            order.attempt_id == old(self).next_attempt_id,
            order.attempt == old(self).waiting@[k as int].attempt,
            order.body@ == old(self).waiting@[k as int].body@,
    {
        let entry = self.waiting.swap_remove(k);
        let attempt_id = self.next_attempt_id;
        self.next_attempt_id = self.next_attempt_id + 1;
        let body = clone_bytes(&entry.body);
        let attempt = entry.attempt;
        self.in_flight.push(InFlightAttempt {
            attempt_id,
            body: entry.body,
            handles: entry.handles,
            event_count: entry.event_count,
            byte_size: entry.byte_size,
            attempt: entry.attempt,
        });
        DispatchOrder { attempt_id, attempt, body }
    }

    /// Finds the in-flight attempt with this identifier, if any; the
    /// identifier is unique, so the index pins the attempt down.
    pub fn find_in_flight(&self, attempt_id: u64) -> (r: Option<usize>)
        requires
            self.wf(),
        ensures
            (match r {
                Some(k) => k < self.in_flight@.len()
                    && self.in_flight@[k as int].attempt_id == attempt_id,
                None => forall|i: int| 0 <= i < self.in_flight@.len()
                    ==> (#[trigger] self.in_flight@[i]).attempt_id != attempt_id,
            }),
    {
        let mut i: usize = 0;
        while i < self.in_flight.len()
            invariant
                0 <= i <= self.in_flight@.len(),
                forall|j: int| 0 <= j < i
                    ==> (#[trigger] self.in_flight@[j]).attempt_id != attempt_id,
            decreases self.in_flight@.len() - i,
        {
            if self.in_flight[i].attempt_id == attempt_id {
                return Some(i);
            }
            i = i + 1;
        }
        None
    }

    /// Takes waiting entry `k` out of the queue without dispatching it —
    /// used when shutdown drains pending work. The remaining entries are
    /// the old ones with `k` swapped out.
    pub fn remove_waiting_at(&mut self, k: usize) -> (e: WaitingEntry)
        requires
            old(self).wf(),
            k < old(self).waiting@.len(),
        ensures
            final(self).wf(),
            final(self).settings == old(self).settings,
            final(self).in_flight@ == old(self).in_flight@,
            final(self).next_seq_no == old(self).next_seq_no,
            final(self).waiting@ == old(self).waiting@
                .update(k as int, old(self).waiting@.last()).drop_last(),
            e == old(self).waiting@[k as int],
    {
        self.waiting.swap_remove(k)
    }

    /// Takes completed attempt `k` out of flight, freeing its slot. The
    /// remaining attempts are the old ones with `k` swapped out.
    pub fn remove_in_flight(&mut self, k: usize) -> (f: InFlightAttempt)
        requires
            old(self).wf(),
            k < old(self).in_flight@.len(),
        ensures
            final(self).wf(),
            final(self).settings == old(self).settings,
            final(self).waiting@ == old(self).waiting@,
            final(self).in_flight@ == old(self).in_flight@
                .update(k as int, old(self).in_flight@.last()).drop_last(),
            f == old(self).in_flight@[k as int],
            final(self).next_seq_no == old(self).next_seq_no,
    {
        self.in_flight.swap_remove(k)
    }
}

/// `a + b`, clamped at the top of the range instead of wrapping.
pub open spec fn saturating_add_spec(a: u64, b: u64) -> u64 {
    if a + b > u64::MAX {
        u64::MAX
    } else {
        (a + b) as u64
    }
}

pub fn saturating_add(a: u64, b: u64) -> (r: u64)
    ensures
        r == saturating_add_spec(a, b),
{
    if a > u64::MAX - b {
        u64::MAX
    } else {
        a + b
    }
}

/// A verified byte-for-byte copy of a buffer.
pub fn clone_bytes(v: &Vec<u8>) -> (r: Vec<u8>)
    ensures
        r@ == v@,
{
    let mut r: Vec<u8> = Vec::new();
    let mut i: usize = 0;
    while i < v.len()
        invariant
            0 <= i <= v@.len(),
            r@ == v@.subrange(0, i as int),
        decreases v@.len() - i,
    {
        r.push(v[i]);
        proof {
            assert(r@ =~= v@.subrange(0, i + 1));
        }
        i = i + 1;
    }
    proof {
        assert(v@.subrange(0, v@.len() as int) =~= v@);
    }
    r
}

} // verus!
