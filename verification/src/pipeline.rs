//! The assembled delivery core.
//!
//! The pipeline owns the outcome registry, the batcher, the batches that
//! await their build outcome, and the driver. Every event admitted through
//! `push_event` is registered and its handle is held by exactly one stage
//! until a terminal outcome is written for it, so that once the machine is
//! empty every event is finalized: delivered and dropped events together
//! account for every event that ever entered.

use vstd::prelude::*;
use crate::DeliveryStatus;
use crate::batcher::{Batcher, BatcherSettings, Event, handles_of};
use crate::driver::{Driver, DriverSettings, DispatchOrder, InFlightAttempt, WaitingEntry,
    saturating_add_spec};
use crate::finalizer::{Registry, pending_count, delivered_count, dropped_count,
    lemma_status_partition, lemma_no_pending_means_zero};
use crate::retry::{classify, spec_classify, Disposition, Response,
    TransportError, TransportErrorKind};

verus! {

/// A flushed batch handed out for request building, awaiting its outcome.
#[derive(Clone, PartialEq, Eq, Debug)]
pub struct PendingBatch {
    pub batch_id: u64,
    pub events: Vec<Event>,
    pub byte_size: usize,
}

/// The class of a terminal (or retry) observability record.
#[derive(Clone, Copy, PartialEq, Eq, Structural, Debug)]
pub enum OutcomeKind {
    BuildFailure,
    Delivered,
    Retrying,
    Fatal,
    ShutdownDrop,
}

/// One fire-and-forget observability record: what left the pipeline, how
/// big it was, and why, emitted on every batch or request outcome.
#[derive(Clone, Copy, PartialEq, Eq, Structural, Debug)]
pub struct Record {
    pub kind: OutcomeKind,
    pub event_count: usize,
    pub byte_size: usize,
    pub delay_ms: u64,
    pub error: Option<TransportErrorKind>,
}

/// No handle occurs in both sequences.
pub open spec fn seqs_disjoint(a: Seq<usize>, b: Seq<usize>) -> bool {
    forall|i: int, j: int| 0 <= i < a.len() && 0 <= j < b.len() ==> a[i] != b[j]
}

/// One stage's handle group: internally distinct, every member registered
/// and still pending.
pub open spec fn unit_ok(reg: Registry, hs: Seq<usize>) -> bool {
    &&& hs.no_duplicates()
    &&& forall|i: int| 0 <= i < hs.len() ==> reg.is_pending(#[trigger] hs[i])
}

/// What admitting one event produced: the event's finalization handle, and
/// the identifiers of the batches (at most two) the insertion flushed.
pub struct PushResult {
    pub handle: usize,
    pub spilled_batch: Option<u64>,
    pub flushed_batch: Option<u64>,
}

pub struct Pipeline {
    pub registry: Registry,
    pub batcher: Batcher,
    pub builds: Vec<PendingBatch>,
    pub driver: Driver,
    pub next_batch_id: u64,
}

impl Pipeline {
    pub open spec fn build_handles(&self, i: int) -> Seq<usize> {
        handles_of(self.builds@[i].events@)
    }

    pub open spec fn waiting_handles(&self, i: int) -> Seq<usize> {
        self.driver.waiting@[i].handles@
    }

    pub open spec fn flight_handles(&self, i: int) -> Seq<usize> {
        self.driver.in_flight@[i].handles@
    }

    /// Handle `h` is currently held by some stage of the machine.
    pub open spec fn holds_handle(&self, h: usize) -> bool {
        ||| self.batcher.held().contains(h)
        ||| exists|i: int| 0 <= i < self.builds@.len()
            && (#[trigger] self.build_handles(i)).contains(h)
        ||| exists|i: int| 0 <= i < self.driver.waiting@.len()
            && (#[trigger] self.waiting_handles(i)).contains(h)
        ||| exists|i: int| 0 <= i < self.driver.in_flight@.len()
            && (#[trigger] self.flight_handles(i)).contains(h)
    }

    /// No stage holds an event: the input was fully consumed and every
    /// request reached a terminal state.
    pub open spec fn machine_empty(&self) -> bool {
        &&& self.batcher.open_events@.len() == 0
        &&& self.builds@.len() == 0
        &&& self.driver.waiting@.len() == 0
        &&& self.driver.in_flight@.len() == 0
    }

    /// Every stage's handle group is distinct and pending, and no two
    /// stages (nor two groups within a stage) share a handle.
    pub open spec fn handles_ok(&self) -> bool {
        &&& unit_ok(self.registry, self.batcher.held())
        &&& forall|i: int| 0 <= i < self.builds@.len()
            ==> unit_ok(self.registry, #[trigger] self.build_handles(i))
        &&& forall|i: int| 0 <= i < self.driver.waiting@.len()
            ==> unit_ok(self.registry, #[trigger] self.waiting_handles(i))
        &&& forall|i: int| 0 <= i < self.driver.in_flight@.len()
            ==> unit_ok(self.registry, #[trigger] self.flight_handles(i))
        &&& forall|i: int, j: int|
            0 <= i < self.builds@.len() && 0 <= j < self.builds@.len() && i != j
                ==> seqs_disjoint(#[trigger] self.build_handles(i), #[trigger] self.build_handles(j))
        &&& forall|i: int, j: int|
            0 <= i < self.driver.waiting@.len() && 0 <= j < self.driver.waiting@.len() && i != j
                ==> seqs_disjoint(#[trigger] self.waiting_handles(i), #[trigger] self.waiting_handles(j))
        &&& forall|i: int, j: int|
            0 <= i < self.driver.in_flight@.len() && 0 <= j < self.driver.in_flight@.len() && i != j
                ==> seqs_disjoint(#[trigger] self.flight_handles(i), #[trigger] self.flight_handles(j))
        &&& forall|i: int| 0 <= i < self.builds@.len()
            ==> seqs_disjoint(self.batcher.held(), #[trigger] self.build_handles(i))
        &&& forall|i: int| 0 <= i < self.driver.waiting@.len()
            ==> seqs_disjoint(self.batcher.held(), #[trigger] self.waiting_handles(i))
        &&& forall|i: int| 0 <= i < self.driver.in_flight@.len()
            ==> seqs_disjoint(self.batcher.held(), #[trigger] self.flight_handles(i))
        &&& forall|i: int, j: int|
            0 <= i < self.builds@.len() && 0 <= j < self.driver.waiting@.len()
                ==> seqs_disjoint(#[trigger] self.build_handles(i), #[trigger] self.waiting_handles(j))
        &&& forall|i: int, j: int|
            0 <= i < self.builds@.len() && 0 <= j < self.driver.in_flight@.len()
                ==> seqs_disjoint(#[trigger] self.build_handles(i), #[trigger] self.flight_handles(j))
        &&& forall|i: int, j: int|
            0 <= i < self.driver.waiting@.len() && 0 <= j < self.driver.in_flight@.len()
                ==> seqs_disjoint(#[trigger] self.waiting_handles(i), #[trigger] self.flight_handles(j))
    }

    /// Every registered event that is still pending is held by some stage:
    /// nothing can be lost in between.
    pub open spec fn coverage_ok(&self) -> bool {
        forall|h: usize| self.registry.is_pending(h) ==> self.holds_handle(h)
    }

    pub open spec fn wf(&self) -> bool {
        &&& self.batcher.wf()
        &&& self.driver.wf()
        &&& self.handles_ok()
        &&& self.coverage_ok()
        &&& forall|i: int| 0 <= i < self.builds@.len()
            ==> (#[trigger] self.builds@[i]).batch_id < self.next_batch_id
        &&& forall|i: int, j: int|
            0 <= i < self.builds@.len() && 0 <= j < self.builds@.len() && i != j
                ==> (#[trigger] self.builds@[i]).batch_id != (#[trigger] self.builds@[j]).batch_id
    }

    pub fn new(batch_settings: BatcherSettings, driver_settings: DriverSettings) -> (p: Pipeline)
        requires
            batch_settings.valid(),
            driver_settings.valid(),
        ensures
            p.wf(),
            p.machine_empty(),
            p.registry@.len() == 0,
            p.batcher.settings == batch_settings,
            p.driver.settings == driver_settings,
    {
        let p = Pipeline {
            registry: Registry::new(),
            batcher: Batcher::new(batch_settings),
            builds: Vec::new(),
            driver: Driver::new(driver_settings),
            next_batch_id: 0,
        };
        p
    }

    /// Admits one event: registers its finalization handle, places it in
    /// the open batch in arrival order, and hands out any batch the
    /// insertion flushed. The new handle is pending and held; every other
    /// handle's status is untouched.
    pub fn push_event(&mut self, payload: Vec<u8>, size_estimate: usize, now_ms: u64)
        -> (r: PushResult)
        requires
            old(self).wf(),
            old(self).registry@.len() < usize::MAX,
            old(self).next_batch_id + 2 <= u64::MAX,
        ensures
            final(self).wf(),
            final(self).registry@ == old(self).registry@.push(DeliveryStatus::Pending),
            r.handle == old(self).registry@.len(),
            final(self).batcher.settings == old(self).batcher.settings,
            final(self).driver == old(self).driver,
            // Stream order: events already handed out for building stay as
            // they were; at most two new batches appear at the end.
            final(self).builds@.len() >= old(self).builds@.len(),
            forall|i: int| 0 <= i < old(self).builds@.len()
                ==> final(self).builds@[i] == old(self).builds@[i],
            (r.spilled_batch is Some || r.flushed_batch is Some)
                ==> final(self).builds@.len() > old(self).builds@.len(),
    {
        let h = self.registry.register();
        let e = Event { payload, size_estimate, handle: h };
        let ghost old_open = self.batcher.open_events@;
        let ghost reg1 = self.registry;
        proof {
            // Registration changes no existing slot, so every stage's group
            // is still pending, and the new handle is fresh: it exceeds
            // every handle any stage holds.
            assert(forall|hh: usize| old(self).registry.is_pending(hh)
                ==> reg1.is_pending(hh));
            assert(forall|hh: usize| reg1.is_pending(hh)
                ==> hh == h || old(self).registry.is_pending(hh));
        }
        let out = self.batcher.push(e, now_ms);
        let ghost g_sp = out.spilled;
        let ghost g_fl = out.flushed;
        let ghost ob = self.builds@;
        let ghost onb = self.next_batch_id;

        let mut spilled_batch: Option<u64> = None;
        let mut flushed_batch: Option<u64> = None;
        if let Some(b) = out.spilled {
            let id = self.next_batch_id;
            self.next_batch_id = self.next_batch_id + 1;
            self.builds.push(PendingBatch { batch_id: id, events: b.events, byte_size: b.byte_size });
            spilled_batch = Some(id);
        }
        if let Some(b) = out.flushed {
            let id = self.next_batch_id;
            self.next_batch_id = self.next_batch_id + 1;
            self.builds.push(PendingBatch { batch_id: id, events: b.events, byte_size: b.byte_size });
            flushed_batch = Some(id);
        }

        proof {
            lemma_handles_of_push(old_open, e);
            let s_old = *old(self);
            let held_old = handles_of(old_open);
            let regv = self.registry;
            assert(regv@ == s_old.registry@.push(DeliveryStatus::Pending));

            // Pending statuses carry over registration, and every handle any
            // stage held is older than (so distinct from) the fresh one.
            assert forall|hh: usize| s_old.registry.is_pending(hh)
                implies regv.is_pending(hh) && hh != h by {}
            assert forall|i: int| 0 <= i < held_old.len()
                implies regv.is_pending(#[trigger] held_old[i]) && held_old[i] != h by {
                assert(s_old.registry.is_pending(held_old[i]));
            }
            assert forall|u: int, i: int|
                0 <= u < s_old.builds@.len() && 0 <= i < s_old.build_handles(u).len()
                implies regv.is_pending(#[trigger] s_old.build_handles(u)[i])
                    && s_old.build_handles(u)[i] != h by {
                assert(unit_ok(s_old.registry, s_old.build_handles(u)));
                assert(s_old.registry.is_pending(s_old.build_handles(u)[i]));
            }
            assert forall|u: int, i: int|
                0 <= u < s_old.driver.waiting@.len() && 0 <= i < s_old.waiting_handles(u).len()
                implies regv.is_pending(#[trigger] s_old.waiting_handles(u)[i])
                    && s_old.waiting_handles(u)[i] != h by {
                assert(unit_ok(s_old.registry, s_old.waiting_handles(u)));
                assert(s_old.registry.is_pending(s_old.waiting_handles(u)[i]));
            }
            assert forall|u: int, i: int|
                0 <= u < s_old.driver.in_flight@.len() && 0 <= i < s_old.flight_handles(u).len()
                implies regv.is_pending(#[trigger] s_old.flight_handles(u)[i])
                    && s_old.flight_handles(u)[i] != h by {
                assert(unit_ok(s_old.registry, s_old.flight_handles(u)));
                assert(s_old.registry.is_pending(s_old.flight_handles(u)[i]));
            }
            assert(regv.is_pending(h));

            // The handle groups that can appear now: the old open batch, the
            // open batch with the fresh handle appended, or the fresh handle
            // alone. Each is distinct-and-pending under the new registry.
            assert(handles_of(seq![e]) =~= seq![h]) by {
                lemma_handles_of_push(Seq::<Event>::empty(), e);
                assert(Seq::<Event>::empty().push(e) =~= seq![e]);
            }
            assert(unit_ok(regv, held_old));
            assert(unit_ok(regv, held_old.push(h))) by {
                assert forall|i: int, j: int|
                    0 <= i < held_old.push(h).len() && 0 <= j < held_old.push(h).len() && i != j
                    implies held_old.push(h)[i] != held_old.push(h)[j] by {
                    if i < held_old.len() && j < held_old.len() {
                        assert(held_old.no_duplicates());
                    }
                }
                assert(held_old.push(h).no_duplicates());
            }
            assert(unit_ok(regv, seq![h]));

            // Old stages are unchanged in content, so their groups remain
            // distinct-and-pending and pairwise disjoint; the fresh handle
            // occurs in none of them.
            assert(self.driver == s_old.driver);
            assert forall|i: int| 0 <= i < s_old.builds@.len()
                implies self.builds@[i] == s_old.builds@[i] by {}
            assert forall|i: int| 0 <= i < ob.len()
                implies #[trigger] self.build_handles(i) == s_old.build_handles(i) by {}
            assert forall|i: int| 0 <= i < self.driver.waiting@.len()
                implies #[trigger] self.waiting_handles(i) == s_old.waiting_handles(i) by {}
            assert forall|i: int| 0 <= i < self.driver.in_flight@.len()
                implies #[trigger] self.flight_handles(i) == s_old.flight_handles(i) by {}

            // Whatever the flush pattern, the new open batch and the new
            // build entries are drawn from the old open handles plus the
            // fresh one, split without overlap.
            let held_new = handles_of(self.batcher.open_events@);
            let nb = self.builds@;
            match (g_sp, g_fl) {
                (Some(b1), Some(b2)) => {
                    assert(nb.len() == ob.len() + 2);
                    assert(nb[ob.len() as int].events@ == old_open);
                    assert(nb[ob.len() as int].batch_id == onb);
                    assert(nb[ob.len() as int + 1].events@ == seq![e]);
                    assert(nb[ob.len() as int + 1].batch_id == onb + 1);
                    assert(self.build_handles(ob.len() as int) == held_old);
                    assert(self.build_handles(ob.len() as int + 1) == seq![h]);
                    assert(held_new =~= Seq::<usize>::empty());
                }
                (Some(b1), None) => {
                    assert(nb.len() == ob.len() as int + 1);
                    assert(nb[ob.len() as int].events@ == old_open);
                    assert(nb[ob.len() as int].batch_id == onb);
                    assert(self.build_handles(ob.len() as int) == held_old);
                    assert(self.batcher.open_events@ == seq![e]);
                    assert(held_new == handles_of(seq![e]));
                    assert(held_new == seq![h]);
                }
                (None, Some(b2)) => {
                    assert(nb.len() == ob.len() as int + 1);
                    assert(nb[ob.len() as int].events@ == old_open.push(e));
                    assert(nb[ob.len() as int].batch_id == onb);
                    assert(self.build_handles(ob.len() as int) == held_old.push(h));
                    assert(held_new =~= Seq::<usize>::empty());
                }
                (None, None) => {
                    assert(nb == ob);
                    assert(self.batcher.open_events@ == old_open.push(e));
                    assert(held_new == held_old.push(h));
                }
            }

            // Each new group is distinct-and-pending.
            assert(unit_ok(regv, held_new));
            assert forall|i: int| ob.len() <= i < nb.len()
                implies unit_ok(regv, #[trigger] self.build_handles(i)) by {}
            // Members of the new groups are old open handles or the fresh one.
            assert forall|i: int, k: int|
                ob.len() <= i < nb.len() && 0 <= k < self.build_handles(i).len()
                implies (#[trigger] self.build_handles(i)[k] == h
                    || held_old.contains(self.build_handles(i)[k])) by {
                let x = self.build_handles(i)[k];
                if x != h {
                    assert(held_old.contains(x));
                }
            }
            assert forall|k: int| 0 <= k < held_new.len()
                implies (#[trigger] held_new[k] == h || held_old.contains(held_new[k])) by {}

            // All the well-formedness clauses of the new state.
            assert forall|i: int| 0 <= i < nb.len()
                implies unit_ok(regv, #[trigger] self.build_handles(i)) by {
                if i < ob.len() {
                    assert(unit_ok(s_old.registry, s_old.build_handles(i)));
                }
            }
            assert forall|i: int| 0 <= i < self.driver.waiting@.len()
                implies unit_ok(regv, #[trigger] self.waiting_handles(i)) by {
                assert(unit_ok(s_old.registry, s_old.waiting_handles(i)));
            }
            assert forall|i: int| 0 <= i < self.driver.in_flight@.len()
                implies unit_ok(regv, #[trigger] self.flight_handles(i)) by {
                assert(unit_ok(s_old.registry, s_old.flight_handles(i)));
            }
            assert forall|i: int, j: int|
                0 <= i < nb.len() && 0 <= j < nb.len() && i != j
                implies seqs_disjoint(#[trigger] self.build_handles(i),
                    #[trigger] self.build_handles(j)) by {
                if i < ob.len() && j < ob.len() {
                    assert(seqs_disjoint(s_old.build_handles(i), s_old.build_handles(j)));
                } else if i < ob.len() || j < ob.len() {
                    let o = if i < ob.len() { i } else { j };
                    let n = if i < ob.len() { j } else { i };
                    assert(seqs_disjoint(s_old.batcher.held(), s_old.build_handles(o)));
                    assert forall|a: int, b: int|
                        0 <= a < self.build_handles(n).len()
                            && 0 <= b < self.build_handles(o).len()
                        implies self.build_handles(n)[a] != self.build_handles(o)[b] by {
                        let x = self.build_handles(n)[a];
                        if x != h {
                            assert(held_old.contains(x));
                            let w = choose|w: int| 0 <= w < held_old.len() && held_old[w] == x;
                            assert(held_old[w] != s_old.build_handles(o)[b]);
                        }
                    }
                }
            }
            assert forall|i: int| 0 <= i < nb.len()
                implies seqs_disjoint(self.batcher.held(), #[trigger] self.build_handles(i)) by {
                assert(self.batcher.held() == held_new);
                assert forall|a: int, b: int|
                    0 <= a < held_new.len() && 0 <= b < self.build_handles(i).len()
                    implies held_new[a] != self.build_handles(i)[b] by {
                    let x = held_new[a];
                    let y = self.build_handles(i)[b];
                    if i < ob.len() {
                        if x != h {
                            let w = choose|w: int| 0 <= w < held_old.len() && held_old[w] == x;
                            assert(seqs_disjoint(s_old.batcher.held(), s_old.build_handles(i)));
                            assert(held_old[w] != s_old.build_handles(i)[b]);
                        }
                    }
                }
            }
            assert forall|i: int| 0 <= i < self.driver.waiting@.len()
                implies seqs_disjoint(self.batcher.held(), #[trigger] self.waiting_handles(i)) by {
                assert forall|a: int, b: int|
                    0 <= a < held_new.len() && 0 <= b < self.waiting_handles(i).len()
                    implies held_new[a] != self.waiting_handles(i)[b] by {
                    let x = held_new[a];
                    if x != h {
                        let w = choose|w: int| 0 <= w < held_old.len() && held_old[w] == x;
                        assert(seqs_disjoint(s_old.batcher.held(), s_old.waiting_handles(i)));
                        assert(held_old[w] != s_old.waiting_handles(i)[b]);
                    }
                }
            }
            assert forall|i: int| 0 <= i < self.driver.in_flight@.len()
                implies seqs_disjoint(self.batcher.held(), #[trigger] self.flight_handles(i)) by {
                assert forall|a: int, b: int|
                    0 <= a < held_new.len() && 0 <= b < self.flight_handles(i).len()
                    implies held_new[a] != self.flight_handles(i)[b] by {
                    let x = held_new[a];
                    if x != h {
                        let w = choose|w: int| 0 <= w < held_old.len() && held_old[w] == x;
                        assert(seqs_disjoint(s_old.batcher.held(), s_old.flight_handles(i)));
                        assert(held_old[w] != s_old.flight_handles(i)[b]);
                    }
                }
            }
            assert forall|i: int, j: int|
                0 <= i < nb.len() && 0 <= j < self.driver.waiting@.len()
                implies seqs_disjoint(#[trigger] self.build_handles(i),
                    #[trigger] self.waiting_handles(j)) by {
                if i < ob.len() {
                    assert(seqs_disjoint(s_old.build_handles(i), s_old.waiting_handles(j)));
                } else {
                    assert forall|a: int, b: int|
                        0 <= a < self.build_handles(i).len()
                            && 0 <= b < self.waiting_handles(j).len()
                        implies self.build_handles(i)[a] != self.waiting_handles(j)[b] by {
                        let x = self.build_handles(i)[a];
                        if x != h {
                            let w = choose|w: int| 0 <= w < held_old.len() && held_old[w] == x;
                            assert(seqs_disjoint(s_old.batcher.held(), s_old.waiting_handles(j)));
                            assert(held_old[w] != s_old.waiting_handles(j)[b]);
                        }
                    }
                }
            }
            assert forall|i: int, j: int|
                0 <= i < nb.len() && 0 <= j < self.driver.in_flight@.len()
                implies seqs_disjoint(#[trigger] self.build_handles(i),
                    #[trigger] self.flight_handles(j)) by {
                if i < ob.len() {
                    assert(seqs_disjoint(s_old.build_handles(i), s_old.flight_handles(j)));
                } else {
                    assert forall|a: int, b: int|
                        0 <= a < self.build_handles(i).len()
                            && 0 <= b < self.flight_handles(j).len()
                        implies self.build_handles(i)[a] != self.flight_handles(j)[b] by {
                        let x = self.build_handles(i)[a];
                        if x != h {
                            let w = choose|w: int| 0 <= w < held_old.len() && held_old[w] == x;
                            assert(seqs_disjoint(s_old.batcher.held(), s_old.flight_handles(j)));
                            assert(held_old[w] != s_old.flight_handles(j)[b]);
                        }
                    }
                }
            }
            assert forall|i: int, j: int|
                0 <= i < self.driver.waiting@.len() && 0 <= j < self.driver.in_flight@.len()
                implies seqs_disjoint(#[trigger] self.waiting_handles(i),
                    #[trigger] self.flight_handles(j)) by {
                assert(seqs_disjoint(s_old.waiting_handles(i), s_old.flight_handles(j)));
            }

            // Coverage: every pending handle is still held somewhere.
            assert forall|hh: usize| regv.is_pending(hh)
                implies self.holds_handle(hh) by {
                if hh == h {
                    match (g_sp, g_fl) {
                        (Some(b1), Some(b2)) => {
                            assert(self.build_handles(ob.len() as int + 1)[0] == h);
                            assert(self.build_handles(ob.len() as int + 1).contains(h));
                        }
                        (Some(b1), None) => {
                            assert(held_new[0] == h);
                            assert(self.batcher.held().contains(h));
                        }
                        (None, Some(b2)) => {
                            assert(self.build_handles(ob.len() as int)[held_old.len() as int] == h);
                            assert(self.build_handles(ob.len() as int).contains(h));
                        }
                        (None, None) => {
                            assert(held_new[held_old.len() as int] == h);
                            assert(self.batcher.held().contains(h));
                        }
                    }
                } else {
                    assert(s_old.registry.is_pending(hh));
                    assert(s_old.holds_handle(hh));
                    if s_old.batcher.held().contains(hh) {
                        let w = choose|w: int| 0 <= w < held_old.len() && held_old[w] == hh;
                        match (g_sp, g_fl) {
                            (Some(b1), Some(b2)) => {
                                assert(self.build_handles(ob.len() as int).contains(hh));
                            }
                            (Some(b1), None) => {
                                assert(self.build_handles(ob.len() as int).contains(hh));
                            }
                            (None, Some(b2)) => {
                                assert(self.build_handles(ob.len() as int)[w] == hh);
                                assert(self.build_handles(ob.len() as int).contains(hh));
                            }
                            (None, None) => {
                                assert(held_new[w] == hh);
                                assert(self.batcher.held().contains(hh));
                            }
                        }
                    } else if exists|i: int| 0 <= i < ob.len()
                        && (#[trigger] s_old.build_handles(i)).contains(hh) {
                        let i = choose|i: int| 0 <= i < ob.len()
                            && (#[trigger] s_old.build_handles(i)).contains(hh);
                        assert(self.build_handles(i).contains(hh));
                    } else if exists|i: int| 0 <= i < s_old.driver.waiting@.len()
                        && (#[trigger] s_old.waiting_handles(i)).contains(hh) {
                        let i = choose|i: int| 0 <= i < s_old.driver.waiting@.len()
                            && (#[trigger] s_old.waiting_handles(i)).contains(hh);
                        assert(self.waiting_handles(i).contains(hh));
                    } else {
                        let i = choose|i: int| 0 <= i < s_old.driver.in_flight@.len()
                            && (#[trigger] s_old.flight_handles(i)).contains(hh);
                        assert(self.flight_handles(i).contains(hh));
                    }
                }
            }

            // Batch identifiers stay distinct.
            assert forall|i: int, j: int|
                0 <= i < nb.len() && 0 <= j < nb.len() && i != j
                implies (#[trigger] nb[i]).batch_id != (#[trigger] nb[j]).batch_id by {
                if i < ob.len() && j < ob.len() {
                    assert(s_old.builds@[i].batch_id != s_old.builds@[j].batch_id);
                }
            }
        }
        PushResult { handle: h, spilled_batch, flushed_batch }
    }
}

impl Pipeline {
    /// Finds the pending batch with this identifier; identifiers are
    /// unique, so the index pins the batch down.
    pub fn find_build(&self, batch_id: u64) -> (r: Option<usize>)
        requires
            self.wf(),
        ensures
            (match r {
                Some(k) => k < self.builds@.len()
                    && self.builds@[k as int].batch_id == batch_id,
                None => forall|i: int| 0 <= i < self.builds@.len()
                    ==> (#[trigger] self.builds@[i]).batch_id != batch_id,
            }),
    {
        let mut i: usize = 0;
        while i < self.builds.len()
            invariant
                0 <= i <= self.builds@.len(),
                forall|j: int| 0 <= j < i
                    ==> (#[trigger] self.builds@[j]).batch_id != batch_id,
            decreases self.builds@.len() - i,
        {
            if self.builds[i].batch_id == batch_id {
                return Some(i);
            }
            i = i + 1;
        }
        None
    }

    /// Accepts the successful build of pending batch `k`: the encoded body
    /// replaces the batch's events, and the request enters the driver's
    /// submission queue carrying exactly the batch's handles and metrics.
    pub fn on_build_ok(&mut self, k: usize, body: Vec<u8>, now_ms: u64)
        requires
            old(self).wf(),
            k < old(self).builds@.len(),
            old(self).driver.next_seq_no < u64::MAX,
        ensures
            final(self).wf(),
            final(self).registry == old(self).registry,
            final(self).batcher == old(self).batcher,
            final(self).driver.settings == old(self).driver.settings,
            final(self).builds@ == old(self).builds@
                .update(k as int, old(self).builds@.last()).drop_last(),
            final(self).driver.in_flight@ == old(self).driver.in_flight@,
            final(self).driver.waiting@.len() == old(self).driver.waiting@.len() + 1,
            forall|i: int| 0 <= i < old(self).driver.waiting@.len()
                ==> final(self).driver.waiting@[i] == old(self).driver.waiting@[i],
            final(self).driver.waiting@.last().handles@ == old(self).build_handles(k as int),
            final(self).driver.waiting@.last().body == body,
            final(self).driver.waiting@.last().attempt == 1,
            final(self).driver.waiting@.last().eligible_at_ms == now_ms,
            final(self).driver.waiting@.last().waiting_since_ms == now_ms,
            final(self).driver.waiting@.last().is_retry == false,
            final(self).driver.waiting@.last().event_count
                == old(self).builds@[k as int].events@.len(),
            final(self).driver.waiting@.last().byte_size
                == old(self).builds@[k as int].byte_size,
    {
        let ghost s_old = *old(self);
        let ghost ob = self.builds@;
        let ghost owl = self.driver.waiting@.len();
        let pb = self.builds.swap_remove(k);
        let handles = collect_handles(&pb.events);
        let event_count = pb.events.len();
        self.driver.submit(body, handles, event_count, pb.byte_size, now_ms);
        proof {
            let wlen = self.driver.waiting@.len();
            let wnew = self.waiting_handles(wlen - 1);
            assert(wnew == s_old.build_handles(k as int));
            // Remaining batches are the old ones, re-indexed by the swap.
            assert forall|i: int| 0 <= i < self.builds@.len()
                implies #[trigger] self.build_handles(i)
                    == s_old.build_handles(if i == k { ob.len() - 1 } else { i }) by {}
            assert forall|i: int| 0 <= i < wlen - 1
                implies #[trigger] self.waiting_handles(i) == s_old.waiting_handles(i) by {}
            assert forall|i: int| 0 <= i < self.driver.in_flight@.len()
                implies #[trigger] self.flight_handles(i) == s_old.flight_handles(i) by {}

            assert(unit_ok(self.registry, wnew)) by {
                assert(unit_ok(s_old.registry, s_old.build_handles(k as int)));
            }
            assert forall|i: int| 0 <= i < self.builds@.len()
                implies unit_ok(self.registry, #[trigger] self.build_handles(i)) by {
                let i0: int = if i == k { ob.len() - 1 } else { i };
                assert(unit_ok(s_old.registry, s_old.build_handles(i0)));
            }
            assert forall|i: int, j: int|
                0 <= i < self.builds@.len() && 0 <= j < self.builds@.len() && i != j
                implies seqs_disjoint(#[trigger] self.build_handles(i),
                    #[trigger] self.build_handles(j)) by {
                let i0: int = if i == k { ob.len() - 1 } else { i };
                let j0: int = if j == k { ob.len() - 1 } else { j };
                assert(seqs_disjoint(s_old.build_handles(i0), s_old.build_handles(j0)));
            }
            assert forall|i: int, j: int|
                0 <= i < wlen && 0 <= j < wlen && i != j
                implies seqs_disjoint(#[trigger] self.waiting_handles(i),
                    #[trigger] self.waiting_handles(j)) by {
                if i < wlen - 1 && j < wlen - 1 {
                    assert(seqs_disjoint(s_old.waiting_handles(i), s_old.waiting_handles(j)));
                } else if j == wlen - 1 {
                    assert(seqs_disjoint(s_old.build_handles(k as int), s_old.waiting_handles(i)));
                    lemma_disjoint_sym(s_old.build_handles(k as int), s_old.waiting_handles(i));
                } else {
                    assert(seqs_disjoint(s_old.build_handles(k as int), s_old.waiting_handles(j)));
                }
            }
            assert forall|i: int| 0 <= i < self.builds@.len()
                implies seqs_disjoint(self.batcher.held(), #[trigger] self.build_handles(i)) by {
                let i0: int = if i == k { ob.len() - 1 } else { i };
                assert(seqs_disjoint(s_old.batcher.held(), s_old.build_handles(i0)));
            }
            assert forall|i: int| 0 <= i < wlen
                implies seqs_disjoint(self.batcher.held(), #[trigger] self.waiting_handles(i)) by {
                if i < wlen - 1 {
                    assert(seqs_disjoint(s_old.batcher.held(), s_old.waiting_handles(i)));
                } else {
                    assert(seqs_disjoint(s_old.batcher.held(), s_old.build_handles(k as int)));
                }
            }
            assert forall|i: int, j: int|
                0 <= i < self.builds@.len() && 0 <= j < wlen
                implies seqs_disjoint(#[trigger] self.build_handles(i),
                    #[trigger] self.waiting_handles(j)) by {
                let i0: int = if i == k { ob.len() - 1 } else { i };
                if j < wlen - 1 {
                    assert(seqs_disjoint(s_old.build_handles(i0), s_old.waiting_handles(j)));
                } else {
                    assert(seqs_disjoint(s_old.build_handles(i0), s_old.build_handles(k as int)));
                }
            }
            assert forall|i: int, j: int|
                0 <= i < self.builds@.len() && 0 <= j < self.driver.in_flight@.len()
                implies seqs_disjoint(#[trigger] self.build_handles(i),
                    #[trigger] self.flight_handles(j)) by {
                let i0: int = if i == k { ob.len() - 1 } else { i };
                assert(seqs_disjoint(s_old.build_handles(i0), s_old.flight_handles(j)));
            }
            assert forall|i: int, j: int|
                0 <= i < wlen && 0 <= j < self.driver.in_flight@.len()
                implies seqs_disjoint(#[trigger] self.waiting_handles(i),
                    #[trigger] self.flight_handles(j)) by {
                if i < wlen - 1 {
                    assert(seqs_disjoint(s_old.waiting_handles(i), s_old.flight_handles(j)));
                } else {
                    assert(seqs_disjoint(s_old.build_handles(k as int), s_old.flight_handles(j)));
                }
            }

            // Coverage: the moved batch's handles are now in the queue; all
            // other holdings are untouched, up to the swap's re-indexing.
            assert forall|hh: usize| self.registry.is_pending(hh)
                implies self.holds_handle(hh) by {
                assert(s_old.holds_handle(hh));
                if s_old.batcher.held().contains(hh) {
                } else if exists|i: int| 0 <= i < ob.len()
                    && (#[trigger] s_old.build_handles(i)).contains(hh) {
                    let i = choose|i: int| 0 <= i < ob.len()
                        && (#[trigger] s_old.build_handles(i)).contains(hh);
                    if i == k {
                        assert(self.waiting_handles(wlen - 1).contains(hh));
                    } else if i == ob.len() - 1 {
                        assert(self.build_handles(k as int).contains(hh));
                    } else {
                        assert(self.build_handles(i).contains(hh));
                    }
                } else if exists|i: int| 0 <= i < s_old.driver.waiting@.len()
                    && (#[trigger] s_old.waiting_handles(i)).contains(hh) {
                    let i = choose|i: int| 0 <= i < s_old.driver.waiting@.len()
                        && (#[trigger] s_old.waiting_handles(i)).contains(hh);
                    assert(self.waiting_handles(i).contains(hh));
                } else {
                    let i = choose|i: int| 0 <= i < s_old.driver.in_flight@.len()
                        && (#[trigger] s_old.flight_handles(i)).contains(hh);
                    assert(self.flight_handles(i).contains(hh));
                }
            }

            assert forall|i: int, j: int|
                0 <= i < self.builds@.len() && 0 <= j < self.builds@.len() && i != j
                implies (#[trigger] self.builds@[i]).batch_id
                    != (#[trigger] self.builds@[j]).batch_id by {
                let i0: int = if i == k { ob.len() - 1 } else { i };
                let j0: int = if j == k { ob.len() - 1 } else { j };
                assert(s_old.builds@[i0].batch_id != s_old.builds@[j0].batch_id);
            }
        }
    }
}

impl Pipeline {
    /// Accepts the failed build of pending batch `k`: a build error is
    /// never retried, so every event of the batch finalizes as dropped at
    /// once, the batch never reaches the driver, and an error record is
    /// emitted for the observability sink. No other event's status changes.
    pub fn on_build_err(&mut self, k: usize) -> (rec: Record)
        requires
            old(self).wf(),
            k < old(self).builds@.len(),
        ensures
            final(self).wf(),
            final(self).batcher == old(self).batcher,
            final(self).driver == old(self).driver,
            final(self).builds@ == old(self).builds@
                .update(k as int, old(self).builds@.last()).drop_last(),
            final(self).registry@.len() == old(self).registry@.len(),
            // The whole batch shares one fate: every one of its events is
            // dropped; every other event keeps its status.
            forall|i: int| 0 <= i < old(self).build_handles(k as int).len()
                ==> final(self).registry@[#[trigger] old(self).build_handles(k as int)[i] as int]
                    == DeliveryStatus::Dropped,
            forall|h: int| 0 <= h < old(self).registry@.len()
                && !old(self).build_handles(k as int).contains(h as usize)
                ==> final(self).registry@[h] == old(self).registry@[h],
            rec == (Record {
                kind: OutcomeKind::BuildFailure,
                event_count: (old(self).builds@[k as int].events@.len() as usize),
                byte_size: old(self).builds@[k as int].byte_size,
                delay_ms: 0u64,
                error: None::<TransportErrorKind>,
            }),
    {
        let ghost s_old = *old(self);
        let ghost ob = self.builds@;
        let pb = self.builds.swap_remove(k);
        let handles = collect_handles(&pb.events);
        let event_count = pb.events.len();
        proof {
            assert(unit_ok(s_old.registry, s_old.build_handles(k as int)));
        }
        self.registry.finalize_batch(&handles, DeliveryStatus::Dropped);
        proof {
            let hs = handles@;
            let regv = self.registry;
            assert(hs == s_old.build_handles(k as int));
            assert forall|i: int| 0 <= i < self.builds@.len()
                implies #[trigger] self.build_handles(i)
                    == s_old.build_handles(if i == k { ob.len() - 1 } else { i }) by {}
            assert forall|i: int| 0 <= i < self.driver.waiting@.len()
                implies #[trigger] self.waiting_handles(i) == s_old.waiting_handles(i) by {}
            assert forall|i: int| 0 <= i < self.driver.in_flight@.len()
                implies #[trigger] self.flight_handles(i) == s_old.flight_handles(i) by {}

            // A handle outside the dropped batch keeps its pending status.
            assert forall|x: usize| s_old.registry.is_pending(x) && !hs.contains(x)
                implies regv.is_pending(x) by {}

            assert(unit_ok(regv, self.batcher.held())) by {
                assert forall|i: int| 0 <= i < self.batcher.held().len()
                    implies regv.is_pending(#[trigger] self.batcher.held()[i]) by {
                    let x = self.batcher.held()[i];
                    assert(s_old.registry.is_pending(x));
                    assert(seqs_disjoint(s_old.batcher.held(), s_old.build_handles(k as int)));
                    assert(!hs.contains(x)) by {
                        if hs.contains(x) {
                            let w = choose|w: int| 0 <= w < hs.len() && hs[w] == x;
                            assert(s_old.batcher.held()[i] != hs[w]);
                        }
                    }
                }
            }
            assert forall|i: int| 0 <= i < self.builds@.len()
                implies unit_ok(regv, #[trigger] self.build_handles(i)) by {
                let i0: int = if i == k { ob.len() - 1 } else { i };
                assert(unit_ok(s_old.registry, s_old.build_handles(i0)));
                assert(seqs_disjoint(s_old.build_handles(i0), s_old.build_handles(k as int)));
                assert forall|j: int| 0 <= j < self.build_handles(i).len()
                    implies regv.is_pending(#[trigger] self.build_handles(i)[j]) by {
                    let x = self.build_handles(i)[j];
                    assert(s_old.registry.is_pending(x));
                    assert(!hs.contains(x)) by {
                        if hs.contains(x) {
                            let w = choose|w: int| 0 <= w < hs.len() && hs[w] == x;
                            assert(s_old.build_handles(i0)[j] != hs[w]);
                        }
                    }
                }
            }
            assert forall|i: int| 0 <= i < self.driver.waiting@.len()
                implies unit_ok(regv, #[trigger] self.waiting_handles(i)) by {
                assert(unit_ok(s_old.registry, s_old.waiting_handles(i)));
                assert(seqs_disjoint(s_old.build_handles(k as int), s_old.waiting_handles(i)));
                assert forall|j: int| 0 <= j < self.waiting_handles(i).len()
                    implies regv.is_pending(#[trigger] self.waiting_handles(i)[j]) by {
                    let x = self.waiting_handles(i)[j];
                    assert(s_old.registry.is_pending(x));
                    assert(!hs.contains(x)) by {
                        if hs.contains(x) {
                            let w = choose|w: int| 0 <= w < hs.len() && hs[w] == x;
                            assert(hs[w] != s_old.waiting_handles(i)[j]);
                        }
                    }
                }
            }
            assert forall|i: int| 0 <= i < self.driver.in_flight@.len()
                implies unit_ok(regv, #[trigger] self.flight_handles(i)) by {
                assert(unit_ok(s_old.registry, s_old.flight_handles(i)));
                assert(seqs_disjoint(s_old.build_handles(k as int), s_old.flight_handles(i)));
                assert forall|j: int| 0 <= j < self.flight_handles(i).len()
                    implies regv.is_pending(#[trigger] self.flight_handles(i)[j]) by {
                    let x = self.flight_handles(i)[j];
                    assert(s_old.registry.is_pending(x));
                    assert(!hs.contains(x)) by {
                        if hs.contains(x) {
                            let w = choose|w: int| 0 <= w < hs.len() && hs[w] == x;
                            assert(hs[w] != s_old.flight_handles(i)[j]);
                        }
                    }
                }
            }

            // Disjointness carries over: contents did not change, only one
            // group left.
            assert forall|i: int, j: int|
                0 <= i < self.builds@.len() && 0 <= j < self.builds@.len() && i != j
                implies seqs_disjoint(#[trigger] self.build_handles(i),
                    #[trigger] self.build_handles(j)) by {
                let i0: int = if i == k { ob.len() - 1 } else { i };
                let j0: int = if j == k { ob.len() - 1 } else { j };
                assert(seqs_disjoint(s_old.build_handles(i0), s_old.build_handles(j0)));
            }
            assert forall|i: int| 0 <= i < self.builds@.len()
                implies seqs_disjoint(self.batcher.held(), #[trigger] self.build_handles(i)) by {
                let i0: int = if i == k { ob.len() - 1 } else { i };
                assert(seqs_disjoint(s_old.batcher.held(), s_old.build_handles(i0)));
            }
            assert forall|i: int, j: int|
                0 <= i < self.builds@.len() && 0 <= j < self.driver.waiting@.len()
                implies seqs_disjoint(#[trigger] self.build_handles(i),
                    #[trigger] self.waiting_handles(j)) by {
                let i0: int = if i == k { ob.len() - 1 } else { i };
                assert(seqs_disjoint(s_old.build_handles(i0), s_old.waiting_handles(j)));
            }
            assert forall|i: int, j: int|
                0 <= i < self.builds@.len() && 0 <= j < self.driver.in_flight@.len()
                implies seqs_disjoint(#[trigger] self.build_handles(i),
                    #[trigger] self.flight_handles(j)) by {
                let i0: int = if i == k { ob.len() - 1 } else { i };
                assert(seqs_disjoint(s_old.build_handles(i0), s_old.flight_handles(j)));
            }

            // Coverage: a still-pending handle was pending before and not in
            // the dropped batch, so its old holder (re-indexed) still holds it.
            assert forall|hh: usize| regv.is_pending(hh)
                implies self.holds_handle(hh) by {
                assert(regv@[hh as int] is Pending);
                assert(!hs.contains(hh)) by {
                    if hs.contains(hh) {
                        let w = choose|w: int| 0 <= w < hs.len() && hs[w] == hh;
                        assert(regv@[hs[w] as int] == DeliveryStatus::Dropped);
                    }
                }
                assert(s_old.registry.is_pending(hh));
                assert(s_old.holds_handle(hh));
                if s_old.batcher.held().contains(hh) {
                } else if exists|i: int| 0 <= i < ob.len()
                    && (#[trigger] s_old.build_handles(i)).contains(hh) {
                    let i = choose|i: int| 0 <= i < ob.len()
                        && (#[trigger] s_old.build_handles(i)).contains(hh);
                    assert(i != k) by {
                        if i == k {
                            let w = choose|w: int| 0 <= w < hs.len() && hs[w] == hh;
                        }
                    }
                    if i == ob.len() - 1 {
                        assert(self.build_handles(k as int).contains(hh));
                    } else {
                        assert(self.build_handles(i).contains(hh));
                    }
                } else if exists|i: int| 0 <= i < s_old.driver.waiting@.len()
                    && (#[trigger] s_old.waiting_handles(i)).contains(hh) {
                    let i = choose|i: int| 0 <= i < s_old.driver.waiting@.len()
                        && (#[trigger] s_old.waiting_handles(i)).contains(hh);
                    assert(self.waiting_handles(i).contains(hh));
                } else {
                    let i = choose|i: int| 0 <= i < s_old.driver.in_flight@.len()
                        && (#[trigger] s_old.flight_handles(i)).contains(hh);
                    assert(self.flight_handles(i).contains(hh));
                }
            }

            assert forall|i: int, j: int|
                0 <= i < self.builds@.len() && 0 <= j < self.builds@.len() && i != j
                implies (#[trigger] self.builds@[i]).batch_id
                    != (#[trigger] self.builds@[j]).batch_id by {
                let i0: int = if i == k { ob.len() - 1 } else { i };
                let j0: int = if j == k { ob.len() - 1 } else { j };
                assert(s_old.builds@[i0].batch_id != s_old.builds@[j0].batch_id);
            }
        }
        Record {
            kind: OutcomeKind::BuildFailure,
            event_count,
            byte_size: pb.byte_size,
            delay_ms: 0,
            error: None,
        }
    }
}

impl Pipeline {
    /// Dispatches the next request if a concurrency slot is free and some
    /// waiting request is eligible: the one that has waited longest, ties
    /// going to first submissions over retries, then to submission order.
    /// `None` means every slot is taken or nothing is eligible yet.
    pub fn next_dispatch(&mut self, now_ms: u64) -> (r: Option<DispatchOrder>)
        requires
            old(self).wf(),
            old(self).driver.next_attempt_id < u64::MAX,
        ensures
            final(self).wf(),
            final(self).registry == old(self).registry,
            final(self).batcher == old(self).batcher,
            final(self).builds@ == old(self).builds@,
            final(self).driver.settings == old(self).driver.settings,
            (match r {
                None => *final(self) == *old(self)
                    && (!old(self).driver.settings.slot_free(
                            old(self).driver.in_flight@.len() as int)
                        || forall|j: int| 0 <= j < old(self).driver.waiting@.len()
                            ==> (#[trigger] old(self).driver.waiting@[j]).eligible_at_ms > now_ms),
                Some(order) => {
                    &&& old(self).driver.settings.slot_free(
                        old(self).driver.in_flight@.len() as int)
                    &&& final(self).driver.in_flight@.len()
                        == old(self).driver.in_flight@.len() + 1
                    &&& forall|i: int| 0 <= i < old(self).driver.in_flight@.len()
                        ==> final(self).driver.in_flight@[i] == old(self).driver.in_flight@[i]
                    &&& final(self).driver.waiting@.len() + 1 == old(self).driver.waiting@.len()
                    &&& order.attempt_id == old(self).driver.next_attempt_id
                    &&& exists|k: int| {
                        &&& 0 <= k < old(self).driver.waiting@.len()
                        &&& (#[trigger] old(self).driver.waiting@[k]).eligible_at_ms <= now_ms
                        &&& (forall|j: int| 0 <= j < old(self).driver.waiting@.len()
                            && (#[trigger] old(self).driver.waiting@[j]).eligible_at_ms <= now_ms
                            ==> crate::driver::dispatch_before(
                                old(self).driver.waiting@[k], old(self).driver.waiting@[j]))
                        &&& final(self).driver.waiting@ == old(self).driver.waiting@
                            .update(k, old(self).driver.waiting@.last()).drop_last()
                        &&& final(self).driver.in_flight@.last() == (InFlightAttempt {
                            attempt_id: old(self).driver.next_attempt_id,
                            body: old(self).driver.waiting@[k].body,
                            handles: old(self).driver.waiting@[k].handles,
                            event_count: old(self).driver.waiting@[k].event_count,
                            byte_size: old(self).driver.waiting@[k].byte_size,
                            attempt: old(self).driver.waiting@[k].attempt,
                        })
                        &&& order.attempt == old(self).driver.waiting@[k].attempt
                        &&& order.body@ == old(self).driver.waiting@[k].body@
                    }
                },
            }),
    {
        let ghost s_old = *old(self);
        let kopt = self.driver.pick_dispatch(now_ms);
        let k = match kopt {
            None => {
                return None;
            }
            Some(k) => k,
        };
        let order = self.driver.dispatch_at(k);
        proof {
            let owl = s_old.driver.waiting@.len();
            let flen = self.driver.in_flight@.len();
            let fnew = self.flight_handles(flen - 1);
            assert(fnew == s_old.waiting_handles(k as int));
            assert forall|i: int| 0 <= i < self.driver.waiting@.len()
                implies #[trigger] self.waiting_handles(i)
                    == s_old.waiting_handles(if i == k { owl - 1 } else { i }) by {}
            assert forall|i: int| 0 <= i < flen - 1
                implies #[trigger] self.flight_handles(i) == s_old.flight_handles(i) by {}
            assert forall|i: int| 0 <= i < self.builds@.len()
                implies #[trigger] self.build_handles(i) == s_old.build_handles(i) by {}

            assert(unit_ok(self.registry, fnew)) by {
                assert(unit_ok(s_old.registry, s_old.waiting_handles(k as int)));
            }
            assert forall|i: int| 0 <= i < self.driver.waiting@.len()
                implies unit_ok(self.registry, #[trigger] self.waiting_handles(i)) by {
                let i0: int = if i == k { owl - 1 } else { i };
                assert(unit_ok(s_old.registry, s_old.waiting_handles(i0)));
            }
            assert forall|i: int, j: int|
                0 <= i < self.driver.waiting@.len() && 0 <= j < self.driver.waiting@.len()
                    && i != j
                implies seqs_disjoint(#[trigger] self.waiting_handles(i),
                    #[trigger] self.waiting_handles(j)) by {
                let i0: int = if i == k { owl - 1 } else { i };
                let j0: int = if j == k { owl - 1 } else { j };
                assert(seqs_disjoint(s_old.waiting_handles(i0), s_old.waiting_handles(j0)));
            }
            assert forall|i: int, j: int|
                0 <= i < flen && 0 <= j < flen && i != j
                implies seqs_disjoint(#[trigger] self.flight_handles(i),
                    #[trigger] self.flight_handles(j)) by {
                if i < flen - 1 && j < flen - 1 {
                    assert(seqs_disjoint(s_old.flight_handles(i), s_old.flight_handles(j)));
                } else if j == flen - 1 {
                    assert(seqs_disjoint(s_old.waiting_handles(k as int), s_old.flight_handles(i)));
                    lemma_disjoint_sym(s_old.waiting_handles(k as int), s_old.flight_handles(i));
                } else {
                    assert(seqs_disjoint(s_old.waiting_handles(k as int), s_old.flight_handles(j)));
                }
            }
            assert forall|i: int| 0 <= i < self.driver.waiting@.len()
                implies seqs_disjoint(self.batcher.held(), #[trigger] self.waiting_handles(i)) by {
                let i0: int = if i == k { owl - 1 } else { i };
                assert(seqs_disjoint(s_old.batcher.held(), s_old.waiting_handles(i0)));
            }
            assert forall|i: int| 0 <= i < flen
                implies seqs_disjoint(self.batcher.held(), #[trigger] self.flight_handles(i)) by {
                if i < flen - 1 {
                    assert(seqs_disjoint(s_old.batcher.held(), s_old.flight_handles(i)));
                } else {
                    assert(seqs_disjoint(s_old.batcher.held(), s_old.waiting_handles(k as int)));
                }
            }
            assert forall|i: int, j: int|
                0 <= i < self.builds@.len() && 0 <= j < self.driver.waiting@.len()
                implies seqs_disjoint(#[trigger] self.build_handles(i),
                    #[trigger] self.waiting_handles(j)) by {
                let j0: int = if j == k { owl - 1 } else { j };
                assert(seqs_disjoint(s_old.build_handles(i), s_old.waiting_handles(j0)));
            }
            assert forall|i: int, j: int|
                0 <= i < self.builds@.len() && 0 <= j < flen
                implies seqs_disjoint(#[trigger] self.build_handles(i),
                    #[trigger] self.flight_handles(j)) by {
                if j < flen - 1 {
                    assert(seqs_disjoint(s_old.build_handles(i), s_old.flight_handles(j)));
                } else {
                    assert(seqs_disjoint(s_old.build_handles(i), s_old.waiting_handles(k as int)));
                }
            }
            assert forall|i: int, j: int|
                0 <= i < self.driver.waiting@.len() && 0 <= j < flen
                implies seqs_disjoint(#[trigger] self.waiting_handles(i),
                    #[trigger] self.flight_handles(j)) by {
                let i0: int = if i == k { owl - 1 } else { i };
                if j < flen - 1 {
                    assert(seqs_disjoint(s_old.waiting_handles(i0), s_old.flight_handles(j)));
                } else {
                    assert(seqs_disjoint(s_old.waiting_handles(i0), s_old.waiting_handles(k as int)));
                }
            }

            assert forall|hh: usize| self.registry.is_pending(hh)
                implies self.holds_handle(hh) by {
                assert(s_old.holds_handle(hh));
                if s_old.batcher.held().contains(hh) {
                } else if exists|i: int| 0 <= i < s_old.builds@.len()
                    && (#[trigger] s_old.build_handles(i)).contains(hh) {
                    let i = choose|i: int| 0 <= i < s_old.builds@.len()
                        && (#[trigger] s_old.build_handles(i)).contains(hh);
                    assert(self.build_handles(i).contains(hh));
                } else if exists|i: int| 0 <= i < owl
                    && (#[trigger] s_old.waiting_handles(i)).contains(hh) {
                    let i = choose|i: int| 0 <= i < owl
                        && (#[trigger] s_old.waiting_handles(i)).contains(hh);
                    if i == k {
                        assert(self.flight_handles(flen - 1).contains(hh));
                    } else if i == owl - 1 {
                        assert(self.waiting_handles(k as int).contains(hh));
                    } else {
                        assert(self.waiting_handles(i).contains(hh));
                    }
                } else {
                    let i = choose|i: int| 0 <= i < s_old.driver.in_flight@.len()
                        && (#[trigger] s_old.flight_handles(i)).contains(hh);
                    assert(self.flight_handles(i).contains(hh));
                }
            }
            assert(0 <= k < owl);
        }
        Some(order)
    }
}

/// How one completed attempt changes the pipeline, as decided by the retry
/// classifier: delivery finalizes the whole request as delivered, a
/// retryable failure re-queues it as the next attempt after its backoff
/// delay, and a fatal failure finalizes the whole request as dropped. In
/// every case the attempt leaves the in-flight set, freeing its slot, and
/// no unrelated event's status changes.
pub open spec fn complete_transition(
    pre: Pipeline,
    post: Pipeline,
    k: int,
    outcome: Result<Response, TransportError>,
    jitter: u64,
    now_ms: u64,
    r: Record,
) -> bool {
    let f = pre.driver.in_flight@[k];
    let disp = spec_classify(outcome, f.attempt, pre.driver.settings.retry, jitter);
    &&& post.driver.in_flight@ == pre.driver.in_flight@
        .update(k, pre.driver.in_flight@.last()).drop_last()
    &&& post.batcher == pre.batcher
    &&& post.builds@ == pre.builds@
    &&& match disp {
        Disposition::Delivered => {
            &&& post.driver.waiting@ == pre.driver.waiting@
            &&& post.registry@.len() == pre.registry@.len()
            &&& forall|i: int| 0 <= i < f.handles@.len()
                ==> post.registry@[(#[trigger] f.handles@[i]) as int] == DeliveryStatus::Delivered
            &&& forall|h: int| 0 <= h < pre.registry@.len() && !f.handles@.contains(h as usize)
                ==> post.registry@[h] == pre.registry@[h]
            &&& r == (Record {
                kind: OutcomeKind::Delivered,
                event_count: f.event_count,
                byte_size: f.byte_size,
                delay_ms: 0u64,
                error: None::<TransportErrorKind>,
            })
        },
        Disposition::Retryable { delay_ms } => {
            &&& post.registry == pre.registry
            &&& post.driver.waiting@.len() == pre.driver.waiting@.len() + 1
            &&& forall|i: int| 0 <= i < pre.driver.waiting@.len()
                ==> post.driver.waiting@[i] == pre.driver.waiting@[i]
            &&& post.driver.waiting@.last() == (WaitingEntry {
                body: f.body,
                handles: f.handles,
                event_count: f.event_count,
                byte_size: f.byte_size,
                attempt: (f.attempt + 1) as u32,
                eligible_at_ms: saturating_add_spec(now_ms, delay_ms),
                waiting_since_ms: saturating_add_spec(now_ms, delay_ms),
                is_retry: true,
                seq_no: pre.driver.next_seq_no,
            })
            &&& r == (Record {
                kind: OutcomeKind::Retrying,
                event_count: f.event_count,
                byte_size: f.byte_size,
                delay_ms,
                error: Some(outcome->Err_0.kind),
            })
        },
        Disposition::Fatal => {
            &&& post.driver.waiting@ == pre.driver.waiting@
            &&& post.registry@.len() == pre.registry@.len()
            &&& forall|i: int| 0 <= i < f.handles@.len()
                ==> post.registry@[(#[trigger] f.handles@[i]) as int] == DeliveryStatus::Dropped
            &&& forall|h: int| 0 <= h < pre.registry@.len() && !f.handles@.contains(h as usize)
                ==> post.registry@[h] == pre.registry@[h]
            &&& r == (Record {
                kind: OutcomeKind::Fatal,
                event_count: f.event_count,
                byte_size: f.byte_size,
                delay_ms: 0u64,
                error: match outcome {
                    Ok(_) => None::<TransportErrorKind>,
                    Err(e) => Some(e.kind),
                },
            })
        },
    }
}

impl Pipeline {
    /// Feeds back the outcome of one transport attempt. The attempt leaves
    /// the in-flight set and is classified: see `complete_transition` for
    /// the three resulting transitions. Returns the observability record,
    /// or `None` when no in-flight attempt carries this identifier.
    pub fn on_attempt_complete(
        &mut self,
        attempt_id: u64,
        outcome: Result<Response, TransportError>,
        now_ms: u64,
        jitter: u64,
    ) -> (rec: Option<Record>)
        requires
            old(self).wf(),
            old(self).driver.next_seq_no < u64::MAX,
        ensures
            final(self).wf(),
            final(self).driver.settings == old(self).driver.settings,
            (match rec {
                None => *final(self) == *old(self)
                    && forall|i: int| 0 <= i < old(self).driver.in_flight@.len()
                        ==> (#[trigger] old(self).driver.in_flight@[i]).attempt_id != attempt_id,
                Some(r) => exists|k: int| {
                    &&& 0 <= k < old(self).driver.in_flight@.len()
                    &&& (#[trigger] old(self).driver.in_flight@[k]).attempt_id == attempt_id
                    &&& complete_transition(*old(self), *final(self), k, outcome, jitter,
                        now_ms, r)
                },
            }),
    {
        let ghost s_old = *old(self);
        let kopt = self.driver.find_in_flight(attempt_id);
        let k = match kopt {
            None => {
                return None;
            }
            Some(k) => k,
        };
        let ghost ofl = s_old.driver.in_flight@.len();
        let f = self.driver.remove_in_flight(k);
        proof {
            assert(f == s_old.driver.in_flight@[k as int]);
            assert(unit_ok(s_old.registry, s_old.flight_handles(k as int)));
            assert(f.handles@ == s_old.flight_handles(k as int));
            assert forall|i: int| 0 <= i < self.driver.in_flight@.len()
                implies #[trigger] self.flight_handles(i)
                    == s_old.flight_handles(if i == k { ofl - 1 } else { i }) by {}
            assert forall|i: int| 0 <= i < self.driver.waiting@.len()
                implies #[trigger] self.waiting_handles(i) == s_old.waiting_handles(i) by {}
            assert forall|i: int| 0 <= i < self.builds@.len()
                implies #[trigger] self.build_handles(i) == s_old.build_handles(i) by {}
        }
        let rs = self.driver.settings.retry;
        let disp = classify(&outcome, f.attempt, &rs, jitter);
        let rec = match disp {
            Disposition::Delivered => {
                self.registry.finalize_batch(&f.handles, DeliveryStatus::Delivered);
                let r = Record {
                    kind: OutcomeKind::Delivered,
                    event_count: f.event_count,
                    byte_size: f.byte_size,
                    delay_ms: 0,
                    error: None,
                };
                proof {
                    self.lemma_complete_finalized(s_old, k as int, f.handles@,
                        DeliveryStatus::Delivered);
                }
                r
            }
            Disposition::Retryable { delay_ms } => {
                let error = match &outcome {
                    Ok(_) => None,
                    Err(e) => Some(e.kind),
                };
                let r = Record {
                    kind: OutcomeKind::Retrying,
                    event_count: f.event_count,
                    byte_size: f.byte_size,
                    delay_ms,
                    error,
                };
                self.driver.schedule_retry(f, delay_ms, now_ms);
                proof {
                    let wlen = self.driver.waiting@.len();
                    let wnew = self.waiting_handles(wlen - 1);
                    assert(wnew == s_old.flight_handles(k as int));
                    assert forall|i: int| 0 <= i < wlen - 1
                        implies #[trigger] self.waiting_handles(i)
                            == s_old.waiting_handles(i) by {}
                    assert(unit_ok(self.registry, wnew)) by {
                        assert(unit_ok(s_old.registry, s_old.flight_handles(k as int)));
                    }
                    assert forall|i: int, j: int|
                        0 <= i < wlen && 0 <= j < wlen && i != j
                        implies seqs_disjoint(#[trigger] self.waiting_handles(i),
                            #[trigger] self.waiting_handles(j)) by {
                        if i < wlen - 1 && j < wlen - 1 {
                            assert(seqs_disjoint(s_old.waiting_handles(i),
                                s_old.waiting_handles(j)));
                        } else if j == wlen - 1 {
                            assert(seqs_disjoint(s_old.waiting_handles(i),
                                s_old.flight_handles(k as int)));
                        } else {
                            assert(seqs_disjoint(s_old.waiting_handles(j),
                                s_old.flight_handles(k as int)));
                            lemma_disjoint_sym(s_old.waiting_handles(j),
                                s_old.flight_handles(k as int));
                        }
                    }
                    assert forall|i: int| 0 <= i < wlen
                        implies seqs_disjoint(self.batcher.held(),
                            #[trigger] self.waiting_handles(i)) by {
                        if i < wlen - 1 {
                            assert(seqs_disjoint(s_old.batcher.held(),
                                s_old.waiting_handles(i)));
                        } else {
                            assert(seqs_disjoint(s_old.batcher.held(),
                                s_old.flight_handles(k as int)));
                        }
                    }
                    assert forall|i: int, j: int|
                        0 <= i < self.builds@.len() && 0 <= j < wlen
                        implies seqs_disjoint(#[trigger] self.build_handles(i),
                            #[trigger] self.waiting_handles(j)) by {
                        if j < wlen - 1 {
                            assert(seqs_disjoint(s_old.build_handles(i),
                                s_old.waiting_handles(j)));
                        } else {
                            assert(seqs_disjoint(s_old.build_handles(i),
                                s_old.flight_handles(k as int)));
                        }
                    }
                    assert forall|i: int, j: int|
                        0 <= i < wlen && 0 <= j < self.driver.in_flight@.len()
                        implies seqs_disjoint(#[trigger] self.waiting_handles(i),
                            #[trigger] self.flight_handles(j)) by {
                        let j0: int = if j == k { ofl - 1 } else { j };
                        if i < wlen - 1 {
                            assert(seqs_disjoint(s_old.waiting_handles(i),
                                s_old.flight_handles(j0)));
                        } else {
                            assert(seqs_disjoint(s_old.flight_handles(k as int),
                                s_old.flight_handles(j0)));
                        }
                    }
                    assert forall|i: int, j: int|
                        0 <= i < self.driver.in_flight@.len()
                            && 0 <= j < self.driver.in_flight@.len() && i != j
                        implies seqs_disjoint(#[trigger] self.flight_handles(i),
                            #[trigger] self.flight_handles(j)) by {
                        let i0: int = if i == k { ofl - 1 } else { i };
                        let j0: int = if j == k { ofl - 1 } else { j };
                        assert(seqs_disjoint(s_old.flight_handles(i0),
                            s_old.flight_handles(j0)));
                    }
                    assert forall|i: int| 0 <= i < self.driver.in_flight@.len()
                        implies seqs_disjoint(self.batcher.held(),
                            #[trigger] self.flight_handles(i)) by {
                        let i0: int = if i == k { ofl - 1 } else { i };
                        assert(seqs_disjoint(s_old.batcher.held(), s_old.flight_handles(i0)));
                    }
                    assert forall|i: int, j: int|
                        0 <= i < self.builds@.len() && 0 <= j < self.driver.in_flight@.len()
                        implies seqs_disjoint(#[trigger] self.build_handles(i),
                            #[trigger] self.flight_handles(j)) by {
                        let j0: int = if j == k { ofl - 1 } else { j };
                        assert(seqs_disjoint(s_old.build_handles(i), s_old.flight_handles(j0)));
                    }
                    assert(unit_ok(self.registry, self.batcher.held())) by {
                        assert(unit_ok(s_old.registry, s_old.batcher.held()));
                    }
                    assert forall|i: int| 0 <= i < self.builds@.len()
                        implies unit_ok(self.registry, #[trigger] self.build_handles(i)) by {
                        assert(unit_ok(s_old.registry, s_old.build_handles(i)));
                    }
                    assert forall|i: int, j: int|
                        0 <= i < self.builds@.len() && 0 <= j < self.builds@.len() && i != j
                        implies seqs_disjoint(#[trigger] self.build_handles(i),
                            #[trigger] self.build_handles(j)) by {
                        assert(seqs_disjoint(s_old.build_handles(i), s_old.build_handles(j)));
                    }
                    assert forall|i: int| 0 <= i < self.builds@.len()
                        implies seqs_disjoint(self.batcher.held(),
                            #[trigger] self.build_handles(i)) by {
                        assert(seqs_disjoint(s_old.batcher.held(), s_old.build_handles(i)));
                    }
                    assert forall|i: int| 0 <= i < wlen
                        implies unit_ok(self.registry, #[trigger] self.waiting_handles(i)) by {
                        if i < wlen - 1 {
                            assert(unit_ok(s_old.registry, s_old.waiting_handles(i)));
                        }
                    }
                    assert forall|i: int| 0 <= i < self.driver.in_flight@.len()
                        implies unit_ok(self.registry, #[trigger] self.flight_handles(i)) by {
                        let i0: int = if i == k { ofl - 1 } else { i };
                        assert(unit_ok(s_old.registry, s_old.flight_handles(i0)));
                    }
                    assert forall|hh: usize| self.registry.is_pending(hh)
                        implies self.holds_handle(hh) by {
                        assert(s_old.holds_handle(hh));
                        if s_old.batcher.held().contains(hh) {
                        } else if exists|i: int| 0 <= i < s_old.builds@.len()
                            && (#[trigger] s_old.build_handles(i)).contains(hh) {
                            let i = choose|i: int| 0 <= i < s_old.builds@.len()
                                && (#[trigger] s_old.build_handles(i)).contains(hh);
                            assert(self.build_handles(i).contains(hh));
                        } else if exists|i: int| 0 <= i < s_old.driver.waiting@.len()
                            && (#[trigger] s_old.waiting_handles(i)).contains(hh) {
                            let i = choose|i: int| 0 <= i < s_old.driver.waiting@.len()
                                && (#[trigger] s_old.waiting_handles(i)).contains(hh);
                            assert(self.waiting_handles(i).contains(hh));
                        } else {
                            let i = choose|i: int| 0 <= i < ofl
                                && (#[trigger] s_old.flight_handles(i)).contains(hh);
                            if i == k {
                                assert(self.waiting_handles(wlen - 1).contains(hh));
                            } else if i == ofl - 1 {
                                assert(self.flight_handles(k as int).contains(hh));
                            } else {
                                assert(self.flight_handles(i).contains(hh));
                            }
                        }
                    }
                }
                r
            }
            Disposition::Fatal => {
                let error = match &outcome {
                    Ok(_) => None,
                    Err(e) => Some(e.kind),
                };
                self.registry.finalize_batch(&f.handles, DeliveryStatus::Dropped);
                let r = Record {
                    kind: OutcomeKind::Fatal,
                    event_count: f.event_count,
                    byte_size: f.byte_size,
                    delay_ms: 0,
                    error,
                };
                proof {
                    self.lemma_complete_finalized(s_old, k as int, f.handles@,
                        DeliveryStatus::Dropped);
                }
                r
            }
        };
        proof {
            // Witness for the postcondition: the unique in-flight index.
            assert(0 <= k < ofl && s_old.driver.in_flight@[k as int].attempt_id == attempt_id);
            assert(complete_transition(s_old, *self, k as int, outcome, jitter, now_ms, rec));
        }
        Some(rec)
    }

    /// After the attempt at (former) index `k` left the in-flight set and
    /// its handles were all finalized, the machine is well formed again:
    /// every other stage's handles were disjoint from the finalized ones,
    /// so they are still pending and still held.
    proof fn lemma_complete_finalized(
        &self,
        s_old: Pipeline,
        k: int,
        hs: Seq<usize>,
        status: DeliveryStatus,
    )
        requires
            s_old.wf(),
            0 <= k < s_old.driver.in_flight@.len(),
            hs == s_old.flight_handles(k),
            status is Delivered || status is Dropped,
            self.batcher == s_old.batcher,
            self.builds@ == s_old.builds@,
            self.driver.waiting@ == s_old.driver.waiting@,
            self.driver.in_flight@ == s_old.driver.in_flight@
                .update(k, s_old.driver.in_flight@.last()).drop_last(),
            self.registry@.len() == s_old.registry@.len(),
            forall|i: int| 0 <= i < hs.len()
                ==> self.registry@[(#[trigger] hs[i]) as int] == status,
            forall|h: int| 0 <= h < s_old.registry@.len() && !hs.contains(h as usize)
                ==> self.registry@[h] == s_old.registry@[h],
        ensures
            self.handles_ok(),
            self.coverage_ok(),
    {
        let ofl = s_old.driver.in_flight@.len();
        let regv = self.registry;
        assert forall|i: int| 0 <= i < self.driver.in_flight@.len()
            implies #[trigger] self.flight_handles(i)
                == s_old.flight_handles(if i == k { ofl - 1 } else { i }) by {}
        assert forall|i: int| 0 <= i < self.driver.waiting@.len()
            implies #[trigger] self.waiting_handles(i) == s_old.waiting_handles(i) by {}
        assert forall|i: int| 0 <= i < self.builds@.len()
            implies #[trigger] self.build_handles(i) == s_old.build_handles(i) by {}

        assert forall|x: usize| s_old.registry.is_pending(x) && !hs.contains(x)
            implies regv.is_pending(x) by {}

        assert(unit_ok(regv, self.batcher.held())) by {
            assert forall|i: int| 0 <= i < self.batcher.held().len()
                implies regv.is_pending(#[trigger] self.batcher.held()[i]) by {
                let x = self.batcher.held()[i];
                assert(s_old.registry.is_pending(x));
                assert(seqs_disjoint(s_old.batcher.held(), s_old.flight_handles(k)));
                assert(!hs.contains(x)) by {
                    if hs.contains(x) {
                        let w = choose|w: int| 0 <= w < hs.len() && hs[w] == x;
                        assert(s_old.batcher.held()[i] != hs[w]);
                    }
                }
            }
        }
        assert forall|i: int| 0 <= i < self.builds@.len()
            implies unit_ok(regv, #[trigger] self.build_handles(i)) by {
            assert(unit_ok(s_old.registry, s_old.build_handles(i)));
            assert(seqs_disjoint(s_old.build_handles(i), s_old.flight_handles(k)));
            assert forall|j: int| 0 <= j < self.build_handles(i).len()
                implies regv.is_pending(#[trigger] self.build_handles(i)[j]) by {
                let x = self.build_handles(i)[j];
                assert(s_old.registry.is_pending(x));
                assert(!hs.contains(x)) by {
                    if hs.contains(x) {
                        let w = choose|w: int| 0 <= w < hs.len() && hs[w] == x;
                        assert(s_old.build_handles(i)[j] != hs[w]);
                    }
                }
            }
        }
        assert forall|i: int| 0 <= i < self.driver.waiting@.len()
            implies unit_ok(regv, #[trigger] self.waiting_handles(i)) by {
            assert(unit_ok(s_old.registry, s_old.waiting_handles(i)));
            assert(seqs_disjoint(s_old.waiting_handles(i), s_old.flight_handles(k)));
            assert forall|j: int| 0 <= j < self.waiting_handles(i).len()
                implies regv.is_pending(#[trigger] self.waiting_handles(i)[j]) by {
                let x = self.waiting_handles(i)[j];
                assert(s_old.registry.is_pending(x));
                assert(!hs.contains(x)) by {
                    if hs.contains(x) {
                        let w = choose|w: int| 0 <= w < hs.len() && hs[w] == x;
                        assert(s_old.waiting_handles(i)[j] != hs[w]);
                    }
                }
            }
        }
        assert forall|i: int| 0 <= i < self.driver.in_flight@.len()
            implies unit_ok(regv, #[trigger] self.flight_handles(i)) by {
            let i0: int = if i == k { ofl - 1 } else { i };
            assert(unit_ok(s_old.registry, s_old.flight_handles(i0)));
            assert(seqs_disjoint(s_old.flight_handles(i0), s_old.flight_handles(k)));
            assert forall|j: int| 0 <= j < self.flight_handles(i).len()
                implies regv.is_pending(#[trigger] self.flight_handles(i)[j]) by {
                let x = self.flight_handles(i)[j];
                assert(s_old.registry.is_pending(x));
                assert(!hs.contains(x)) by {
                    if hs.contains(x) {
                        let w = choose|w: int| 0 <= w < hs.len() && hs[w] == x;
                        assert(s_old.flight_handles(i0)[j] != hs[w]);
                    }
                }
            }
        }

        assert forall|i: int, j: int|
            0 <= i < self.driver.in_flight@.len() && 0 <= j < self.driver.in_flight@.len()
                && i != j
            implies seqs_disjoint(#[trigger] self.flight_handles(i),
                #[trigger] self.flight_handles(j)) by {
            let i0: int = if i == k { ofl - 1 } else { i };
            let j0: int = if j == k { ofl - 1 } else { j };
            assert(seqs_disjoint(s_old.flight_handles(i0), s_old.flight_handles(j0)));
        }
        assert forall|i: int| 0 <= i < self.driver.in_flight@.len()
            implies seqs_disjoint(self.batcher.held(), #[trigger] self.flight_handles(i)) by {
            let i0: int = if i == k { ofl - 1 } else { i };
            assert(seqs_disjoint(s_old.batcher.held(), s_old.flight_handles(i0)));
        }
        assert forall|i: int, j: int|
            0 <= i < self.builds@.len() && 0 <= j < self.driver.in_flight@.len()
            implies seqs_disjoint(#[trigger] self.build_handles(i),
                #[trigger] self.flight_handles(j)) by {
            let j0: int = if j == k { ofl - 1 } else { j };
            assert(seqs_disjoint(s_old.build_handles(i), s_old.flight_handles(j0)));
        }
        assert forall|i: int, j: int|
            0 <= i < self.driver.waiting@.len() && 0 <= j < self.driver.in_flight@.len()
            implies seqs_disjoint(#[trigger] self.waiting_handles(i),
                #[trigger] self.flight_handles(j)) by {
            let j0: int = if j == k { ofl - 1 } else { j };
            assert(seqs_disjoint(s_old.waiting_handles(i), s_old.flight_handles(j0)));
        }

        assert forall|hh: usize| regv.is_pending(hh)
            implies self.holds_handle(hh) by {
            assert(regv@[hh as int] is Pending);
            assert(!hs.contains(hh)) by {
                if hs.contains(hh) {
                    let w = choose|w: int| 0 <= w < hs.len() && hs[w] == hh;
                    assert(regv@[hs[w] as int] == status);
                }
            }
            assert(s_old.registry.is_pending(hh));
            assert(s_old.holds_handle(hh));
            if s_old.batcher.held().contains(hh) {
            } else if exists|i: int| 0 <= i < s_old.builds@.len()
                && (#[trigger] s_old.build_handles(i)).contains(hh) {
                let i = choose|i: int| 0 <= i < s_old.builds@.len()
                    && (#[trigger] s_old.build_handles(i)).contains(hh);
                assert(self.build_handles(i).contains(hh));
            } else if exists|i: int| 0 <= i < s_old.driver.waiting@.len()
                && (#[trigger] s_old.waiting_handles(i)).contains(hh) {
                let i = choose|i: int| 0 <= i < s_old.driver.waiting@.len()
                    && (#[trigger] s_old.waiting_handles(i)).contains(hh);
                assert(self.waiting_handles(i).contains(hh));
            } else {
                let i = choose|i: int| 0 <= i < ofl
                    && (#[trigger] s_old.flight_handles(i)).contains(hh);
                assert(i != k) by {
                    if i == k {
                        let w = choose|w: int| 0 <= w < hs.len() && hs[w] == hh;
                    }
                }
                if i == ofl - 1 {
                    assert(self.flight_handles(k).contains(hh));
                } else {
                    assert(self.flight_handles(i).contains(hh));
                }
            }
        }
    }
}

impl Pipeline {
    /// True when the open batch has lingered past the configured time.
    pub fn linger_due(&self, now_ms: u64) -> (r: bool)
        ensures
            r <==> (self.batcher.open_events@.len() >= 1
                && now_ms >= self.batcher.open_since_ms
                && now_ms - self.batcher.open_since_ms >= self.batcher.settings.max_linger_ms),
    {
        self.batcher.linger_elapsed(now_ms)
    }

    /// Flushes the open batch — on linger expiry or when the input stream
    /// ends — handing it out for building; returns its identifier, or
    /// `None` when nothing was open.
    pub fn flush_open(&mut self, now_ms: u64) -> (r: Option<u64>)
        requires
            old(self).wf(),
            old(self).next_batch_id < u64::MAX,
        ensures
            final(self).wf(),
            final(self).registry == old(self).registry,
            final(self).driver == old(self).driver,
            final(self).batcher.settings == old(self).batcher.settings,
            final(self).batcher.open_events@.len() == 0,
            (match r {
                Some(id) => {
                    &&& final(self).builds@.len() == old(self).builds@.len() + 1
                    &&& forall|i: int| 0 <= i < old(self).builds@.len()
                        ==> final(self).builds@[i] == old(self).builds@[i]
                    &&& final(self).builds@.last().events@ == old(self).batcher.open_events@
                    &&& final(self).builds@.last().batch_id == id
                    &&& old(self).batcher.open_events@.len() >= 1
                },
                None => *final(self) == *old(self)
                    && old(self).batcher.open_events@.len() == 0,
            }),
            r is Some <==> old(self).batcher.open_events@.len() >= 1,
    {
        let ghost s_old = *old(self);
        let ghost ob = self.builds@;
        let b = match self.batcher.flush(now_ms) {
            None => {
                return None;
            }
            Some(b) => b,
        };
        let id = self.next_batch_id;
        self.next_batch_id = self.next_batch_id + 1;
        self.builds.push(PendingBatch { batch_id: id, events: b.events, byte_size: b.byte_size });
        proof {
            let nb = self.builds@;
            let held_old = handles_of(s_old.batcher.open_events@);
            assert(self.build_handles(ob.len() as int) == held_old);
            assert(handles_of(self.batcher.open_events@) =~= Seq::<usize>::empty());
            assert forall|i: int| 0 <= i < ob.len()
                implies #[trigger] self.build_handles(i) == s_old.build_handles(i) by {}
            assert forall|i: int| 0 <= i < self.driver.waiting@.len()
                implies #[trigger] self.waiting_handles(i) == s_old.waiting_handles(i) by {}
            assert forall|i: int| 0 <= i < self.driver.in_flight@.len()
                implies #[trigger] self.flight_handles(i) == s_old.flight_handles(i) by {}

            assert forall|i: int| 0 <= i < nb.len()
                implies unit_ok(self.registry, #[trigger] self.build_handles(i)) by {
                if i < ob.len() {
                    assert(unit_ok(s_old.registry, s_old.build_handles(i)));
                } else {
                    assert(unit_ok(s_old.registry, s_old.batcher.held()));
                }
            }
            assert forall|i: int, j: int|
                0 <= i < nb.len() && 0 <= j < nb.len() && i != j
                implies seqs_disjoint(#[trigger] self.build_handles(i),
                    #[trigger] self.build_handles(j)) by {
                if i < ob.len() && j < ob.len() {
                    assert(seqs_disjoint(s_old.build_handles(i), s_old.build_handles(j)));
                } else if j == ob.len() {
                    assert(seqs_disjoint(s_old.batcher.held(), s_old.build_handles(i)));
                    lemma_disjoint_sym(s_old.batcher.held(), s_old.build_handles(i));
                } else {
                    assert(seqs_disjoint(s_old.batcher.held(), s_old.build_handles(j)));
                }
            }
            assert forall|i: int| 0 <= i < nb.len()
                implies seqs_disjoint(self.batcher.held(), #[trigger] self.build_handles(i)) by {
                assert(self.batcher.held().len() == 0);
            }
            assert forall|i: int, j: int|
                0 <= i < nb.len() && 0 <= j < self.driver.waiting@.len()
                implies seqs_disjoint(#[trigger] self.build_handles(i),
                    #[trigger] self.waiting_handles(j)) by {
                if i < ob.len() {
                    assert(seqs_disjoint(s_old.build_handles(i), s_old.waiting_handles(j)));
                } else {
                    assert(seqs_disjoint(s_old.batcher.held(), s_old.waiting_handles(j)));
                }
            }
            assert forall|i: int, j: int|
                0 <= i < nb.len() && 0 <= j < self.driver.in_flight@.len()
                implies seqs_disjoint(#[trigger] self.build_handles(i),
                    #[trigger] self.flight_handles(j)) by {
                if i < ob.len() {
                    assert(seqs_disjoint(s_old.build_handles(i), s_old.flight_handles(j)));
                } else {
                    assert(seqs_disjoint(s_old.batcher.held(), s_old.flight_handles(j)));
                }
            }

            assert forall|hh: usize| self.registry.is_pending(hh)
                implies self.holds_handle(hh) by {
                assert(s_old.holds_handle(hh));
                if s_old.batcher.held().contains(hh) {
                    assert(self.build_handles(ob.len() as int).contains(hh));
                } else if exists|i: int| 0 <= i < ob.len()
                    && (#[trigger] s_old.build_handles(i)).contains(hh) {
                    let i = choose|i: int| 0 <= i < ob.len()
                        && (#[trigger] s_old.build_handles(i)).contains(hh);
                    assert(self.build_handles(i).contains(hh));
                } else if exists|i: int| 0 <= i < s_old.driver.waiting@.len()
                    && (#[trigger] s_old.waiting_handles(i)).contains(hh) {
                    let i = choose|i: int| 0 <= i < s_old.driver.waiting@.len()
                        && (#[trigger] s_old.waiting_handles(i)).contains(hh);
                    assert(self.waiting_handles(i).contains(hh));
                } else {
                    let i = choose|i: int| 0 <= i < s_old.driver.in_flight@.len()
                        && (#[trigger] s_old.flight_handles(i)).contains(hh);
                    assert(self.flight_handles(i).contains(hh));
                }
            }
            assert forall|i: int, j: int|
                0 <= i < nb.len() && 0 <= j < nb.len() && i != j
                implies (#[trigger] nb[i]).batch_id != (#[trigger] nb[j]).batch_id by {
                if i < ob.len() && j < ob.len() {
                    assert(s_old.builds@[i].batch_id != s_old.builds@[j].batch_id);
                }
            }
        }
        Some(id)
    }

    /// Drains one not-yet-dispatched request on shutdown instead of
    /// attempting it: every event of the longest-waiting entry finalizes as
    /// dropped with a shutdown record. In-flight attempts are left to
    /// finish. Returns `None` once no request is waiting.
    pub fn drain_one_waiting(&mut self) -> (rec: Option<Record>)
        requires
            old(self).wf(),
        ensures
            final(self).wf(),
            final(self).batcher == old(self).batcher,
            final(self).builds@ == old(self).builds@,
            final(self).driver.in_flight@ == old(self).driver.in_flight@,
            final(self).driver.settings == old(self).driver.settings,
            final(self).registry@.len() == old(self).registry@.len(),
            (match rec {
                None => *final(self) == *old(self)
                    && old(self).driver.waiting@.len() == 0,
                Some(r) => {
                    &&& old(self).driver.waiting@.len() >= 1
                    &&& final(self).driver.waiting@.len()
                        == old(self).driver.waiting@.len() - 1
                    &&& r.kind == OutcomeKind::ShutdownDrop
                    &&& forall|i: int|
                        0 <= i < old(self).waiting_handles(
                            old(self).driver.waiting@.len() - 1).len()
                        ==> final(self).registry@[
                            (#[trigger] old(self).waiting_handles(
                                old(self).driver.waiting@.len() - 1)[i]) as int]
                            == DeliveryStatus::Dropped
                    &&& forall|h: int| 0 <= h < old(self).registry@.len()
                        && !old(self).waiting_handles(
                            old(self).driver.waiting@.len() - 1).contains(h as usize)
                        ==> final(self).registry@[h] == old(self).registry@[h]
                },
            }),
    {
        let ghost s_old = *old(self);
        if self.driver.waiting.len() == 0 {
            return None;
        }
        let ghost owl = s_old.driver.waiting@.len();
        let k = self.driver.waiting.len() - 1;
        let entry = self.driver.remove_waiting_at(k);
        proof {
            assert(entry == s_old.driver.waiting@[owl - 1]);
            assert(entry.handles@ == s_old.waiting_handles(owl - 1));
            assert(unit_ok(s_old.registry, s_old.waiting_handles(owl - 1)));
            assert(self.driver.waiting@ =~= s_old.driver.waiting@.drop_last());
        }
        self.registry.finalize_batch(&entry.handles, DeliveryStatus::Dropped);
        proof {
            let hs = entry.handles@;
            let regv = self.registry;
            assert forall|i: int| 0 <= i < self.driver.waiting@.len()
                implies #[trigger] self.waiting_handles(i) == s_old.waiting_handles(i) by {}
            assert forall|i: int| 0 <= i < self.driver.in_flight@.len()
                implies #[trigger] self.flight_handles(i) == s_old.flight_handles(i) by {}
            assert forall|i: int| 0 <= i < self.builds@.len()
                implies #[trigger] self.build_handles(i) == s_old.build_handles(i) by {}

            assert forall|x: usize| s_old.registry.is_pending(x) && !hs.contains(x)
                implies regv.is_pending(x) by {}

            assert(unit_ok(regv, self.batcher.held())) by {
                assert forall|i: int| 0 <= i < self.batcher.held().len()
                    implies regv.is_pending(#[trigger] self.batcher.held()[i]) by {
                    let x = self.batcher.held()[i];
                    assert(s_old.registry.is_pending(x));
                    assert(seqs_disjoint(s_old.batcher.held(), s_old.waiting_handles(owl - 1)));
                    assert(!hs.contains(x)) by {
                        if hs.contains(x) {
                            let w = choose|w: int| 0 <= w < hs.len() && hs[w] == x;
                            assert(s_old.batcher.held()[i] != hs[w]);
                        }
                    }
                }
            }
            assert forall|i: int| 0 <= i < self.builds@.len()
                implies unit_ok(regv, #[trigger] self.build_handles(i)) by {
                assert(unit_ok(s_old.registry, s_old.build_handles(i)));
                assert(seqs_disjoint(s_old.build_handles(i), s_old.waiting_handles(owl - 1)));
                assert forall|j: int| 0 <= j < self.build_handles(i).len()
                    implies regv.is_pending(#[trigger] self.build_handles(i)[j]) by {
                    let x = self.build_handles(i)[j];
                    assert(s_old.registry.is_pending(x));
                    assert(!hs.contains(x)) by {
                        if hs.contains(x) {
                            let w = choose|w: int| 0 <= w < hs.len() && hs[w] == x;
                            assert(s_old.build_handles(i)[j] != hs[w]);
                        }
                    }
                }
            }
            assert forall|i: int| 0 <= i < self.driver.waiting@.len()
                implies unit_ok(regv, #[trigger] self.waiting_handles(i)) by {
                assert(unit_ok(s_old.registry, s_old.waiting_handles(i)));
                assert(seqs_disjoint(s_old.waiting_handles(i), s_old.waiting_handles(owl - 1)));
                assert forall|j: int| 0 <= j < self.waiting_handles(i).len()
                    implies regv.is_pending(#[trigger] self.waiting_handles(i)[j]) by {
                    let x = self.waiting_handles(i)[j];
                    assert(s_old.registry.is_pending(x));
                    assert(!hs.contains(x)) by {
                        if hs.contains(x) {
                            let w = choose|w: int| 0 <= w < hs.len() && hs[w] == x;
                            assert(s_old.waiting_handles(i)[j] != hs[w]);
                        }
                    }
                }
            }
            assert forall|i: int| 0 <= i < self.driver.in_flight@.len()
                implies unit_ok(regv, #[trigger] self.flight_handles(i)) by {
                assert(unit_ok(s_old.registry, s_old.flight_handles(i)));
                assert(seqs_disjoint(s_old.waiting_handles(owl - 1), s_old.flight_handles(i)));
                assert forall|j: int| 0 <= j < self.flight_handles(i).len()
                    implies regv.is_pending(#[trigger] self.flight_handles(i)[j]) by {
                    let x = self.flight_handles(i)[j];
                    assert(s_old.registry.is_pending(x));
                    assert(!hs.contains(x)) by {
                        if hs.contains(x) {
                            let w = choose|w: int| 0 <= w < hs.len() && hs[w] == x;
                            assert(hs[w] != s_old.flight_handles(i)[j]);
                        }
                    }
                }
            }

            assert forall|hh: usize| regv.is_pending(hh)
                implies self.holds_handle(hh) by {
                assert(regv@[hh as int] is Pending);
                assert(!hs.contains(hh)) by {
                    if hs.contains(hh) {
                        let w = choose|w: int| 0 <= w < hs.len() && hs[w] == hh;
                        assert(regv@[hs[w] as int] == DeliveryStatus::Dropped);
                    }
                }
                assert(s_old.registry.is_pending(hh));
                assert(s_old.holds_handle(hh));
                if s_old.batcher.held().contains(hh) {
                } else if exists|i: int| 0 <= i < s_old.builds@.len()
                    && (#[trigger] s_old.build_handles(i)).contains(hh) {
                    let i = choose|i: int| 0 <= i < s_old.builds@.len()
                        && (#[trigger] s_old.build_handles(i)).contains(hh);
                    assert(self.build_handles(i).contains(hh));
                } else if exists|i: int| 0 <= i < owl
                    && (#[trigger] s_old.waiting_handles(i)).contains(hh) {
                    let i = choose|i: int| 0 <= i < owl
                        && (#[trigger] s_old.waiting_handles(i)).contains(hh);
                    assert(i != owl - 1) by {
                        if i == owl - 1 {
                            let w = choose|w: int| 0 <= w < hs.len() && hs[w] == hh;
                        }
                    }
                    assert(self.waiting_handles(i).contains(hh));
                } else {
                    let i = choose|i: int| 0 <= i < s_old.driver.in_flight@.len()
                        && (#[trigger] s_old.flight_handles(i)).contains(hh);
                    assert(self.flight_handles(i).contains(hh));
                }
            }
        }
        Some(Record {
            kind: OutcomeKind::ShutdownDrop,
            event_count: entry.event_count,
            byte_size: entry.byte_size,
            delay_ms: 0,
            error: None,
        })
    }

    /// The recorded status of one event's handle.
    pub fn status_of(&self, handle: usize) -> (s: DeliveryStatus)
        requires
            handle < self.registry@.len(),
        ensures
            s == self.registry@[handle as int],
    {
        self.registry.status(handle)
    }
}

/// Once the machine has fully drained, every event that ever entered the
/// pipeline carries a terminal outcome: the events finalized as delivered
/// and those finalized as dropped together account for every registered
/// event, with none left pending.
pub proof fn lemma_drained_accounts_for_all(p: Pipeline)
    requires
        p.wf(),
        p.machine_empty(),
        p.registry@.len() <= usize::MAX,
    ensures
        delivered_count(p.registry@) + dropped_count(p.registry@) == p.registry@.len(),
        pending_count(p.registry@) == 0,
{
    assert forall|i: int| 0 <= i < p.registry@.len()
        implies !(p.registry@[i] is Pending) by {
        if p.registry@[i] is Pending {
            let h = i as usize;
            assert(p.registry.is_pending(h));
            assert(p.holds_handle(h));
            assert(p.batcher.held().len() == 0);
        }
    }
    lemma_no_pending_means_zero(p.registry@);
    lemma_status_partition(p.registry@);
}

/// Events are never split across two finalization outcomes: when every
/// handle of one request records one outcome, any two of its events carry
/// the same recorded status.
pub proof fn lemma_request_fate_uniform(
    reg: Registry,
    handles: Seq<usize>,
    status: DeliveryStatus,
)
    requires
        forall|i: int| 0 <= i < handles.len()
            ==> reg@[(#[trigger] handles[i]) as int] == status,
    ensures
        forall|i: int, j: int|
            0 <= i < handles.len() && 0 <= j < handles.len()
                ==> reg@[(#[trigger] handles[i]) as int] == reg@[(#[trigger] handles[j]) as int],
{
}

/// No request is ever attempted more than the configured maximum: every
/// waiting or in-flight attempt number stays within the retry policy.
pub proof fn lemma_attempts_bounded(p: Pipeline)
    requires
        p.wf(),
    ensures
        forall|i: int| 0 <= i < p.driver.waiting@.len()
            ==> (#[trigger] p.driver.waiting@[i]).attempt
                <= p.driver.settings.retry.max_attempts,
        forall|i: int| 0 <= i < p.driver.in_flight@.len()
            ==> (#[trigger] p.driver.in_flight@[i]).attempt
                <= p.driver.settings.retry.max_attempts,
{
}

/// The handles of `s.push(e)` are the handles of `s` with `e`'s appended.
pub proof fn lemma_handles_of_push(s: Seq<Event>, e: Event)
    ensures
        handles_of(s.push(e)) =~= handles_of(s).push(e.handle),
{
}

/// Disjointness of handle groups does not depend on their order.
pub proof fn lemma_disjoint_sym(a: Seq<usize>, b: Seq<usize>)
    requires
        seqs_disjoint(a, b),
    ensures
        seqs_disjoint(b, a),
{
}

/// The finalization handles of a batch's events, as an owned vector.
pub fn collect_handles(events: &Vec<Event>) -> (r: Vec<usize>)
    ensures
        r@ == handles_of(events@),
{
    let mut r: Vec<usize> = Vec::new();
    let mut i: usize = 0;
    while i < events.len()
        invariant
            0 <= i <= events@.len(),
            r@.len() == i,
            forall|j: int| 0 <= j < i ==> r@[j] == events@[j].handle,
        decreases events@.len() - i,
    {
        r.push(events[i].handle);
        i = i + 1;
    }
    proof {
        assert(r@ =~= handles_of(events@));
    }
    r
}

} // verus!
