//! The ingest state as a value, and what each operation makes of it.
use vstd::prelude::*;

use crate::fec_set::{all_different, data_shred_info, in_recovery_order, with_shred};
use crate::recovery::{JobView, ResultView};
use crate::shred::{ShredView, MAX_DATA_SHREDS_PER_SLOT};
use crate::state::TrackerView;
use crate::stats::DecoderStats;

verus! {

/// Shreds of a slot this far behind the highest slot seen are still taken.
pub const SLOT_LOOKBACK: u64 = 50;

/// A recovery is done on the ingest thread when at most this many data shreds
/// are missing. Zero: every recovery goes to the workers.
pub const INLINE_RECOVERY_MISSING_THRESHOLD: u16 = 0;

/// With more slots than this in memory, old ones are dropped.
pub const MAX_PROCESSING_AGE: usize = 150;

/// What is held of one slot: its erasure sets by index, and its tables.
#[verifier::ext_equal]
pub struct SlotView {
    pub fec_sets: Map<u32, Seq<ShredView>>,
    pub tracker: TrackerView,
}

/// The erasure set `fec_set_index` of the slot `slot` holds what it may: its
/// own shreds, no two of which say the same.
pub open spec fn fec_set_wf(slot: u64, fec_set_index: u32, set: Seq<ShredView>) -> bool {
    &&& fec_set_index < MAX_DATA_SHREDS_PER_SLOT
    &&& all_different(set)
    &&& forall|i: int|
        0 <= i < set.len() ==> (#[trigger] set[i]).slot() == slot && set[i].fec_set_index()
            == fec_set_index && set[i].index() < MAX_DATA_SHREDS_PER_SLOT
}

/// Every set index among `keys` addresses a slot's tables.
pub open spec fn keys_wf(keys: Seq<(u64, u32)>) -> bool {
    forall|i: int| 0 <= i < keys.len() ==> (#[trigger] keys[i]).1 < MAX_DATA_SHREDS_PER_SLOT
}

impl SlotView {
    /// A slot of which nothing has been seen.
    pub open spec fn empty() -> SlotView {
        SlotView { fec_sets: Map::empty(), tracker: TrackerView::empty() }
    }

    /// What is held of the slot `slot` fits together.
    pub open spec fn wf(self, slot: u64) -> bool {
        &&& self.tracker.wf()
        &&& forall|f: u32| #[trigger]
            self.fec_sets.contains_key(f) ==> fec_set_wf(slot, f, self.fec_sets[f])
    }

    /// The shreds held of an erasure set; none if it has not been seen.
    pub open spec fn set_or_empty(self, fec_set_index: u32) -> Seq<ShredView> {
        if self.fec_sets.contains_key(fec_set_index) {
            self.fec_sets[fec_set_index]
        } else {
            Seq::empty()
        }
    }

    /// `shred` is a data shred of which nothing is known yet, of an erasure
    /// set that was done when its shreds were handed on, and not by a
    /// recovery, which would have dropped them.
    pub open spec fn takes_late(self, shred: ShredView) -> bool {
        &&& shred is ShredData
        &&& self.tracker.already_recovered_fec_sets[shred.fec_set_index() as int]
        &&& self.set_or_empty(shred.fec_set_index()).len() > 0
        &&& self.tracker.vacant(shred.index() as int)
    }

    /// There is a use for `shred` in this slot: it has not been handed on, it
    /// is not here already, and its erasure set is not done, unless the set
    /// turns out to have had more than was handed on.
    pub open spec fn accepts(self, shred: ShredView) -> bool {
        !self.tracker.already_deshredded[shred.index() as int] && (self.tracker.admits(shred)
            || self.takes_late(shred))
    }

    /// The slot once `shred` has been entered.
    pub open spec fn with_shred(self, shred: ShredView) -> SlotView {
        let f = shred.fec_set_index();
        SlotView {
            fec_sets: self.fec_sets.insert(f, with_shred(self.set_or_empty(f), shred)),
            tracker: self.tracker.recorded(shred),
        }
    }
}

impl SlotView {
    /// The slot once the recovery of an erasure set has brought nothing back:
    /// the set is kept, and may be tried again.
    pub open spec fn recovery_failed(self, fec_set_index: u32) -> SlotView {
        SlotView {
            tracker: TrackerView {
                recovery_in_flight: self.tracker.recovery_in_flight.update(
                    fec_set_index as int,
                    false,
                ),
                ..self.tracker
            },
            ..self
        }
    }

    /// The slot once the recovery of an erasure set has brought `shreds`
    /// back: they are entered, the set is done, and its shreds are dropped.
    pub open spec fn recovery_succeeded(self, fec_set_index: u32, shreds: Seq<ShredView>) -> SlotView {
        let filled = self.tracker.offered_all(shreds);
        SlotView {
            fec_sets: if self.fec_sets.contains_key(fec_set_index) {
                self.fec_sets.insert(fec_set_index, Seq::empty())
            } else {
                self.fec_sets
            },
            tracker: TrackerView {
                recovery_in_flight: filled.recovery_in_flight.update(fec_set_index as int, false),
                already_recovered_fec_sets: filled.already_recovered_fec_sets.update(
                    fec_set_index as int,
                    true,
                ),
                ..filled
            },
        }
    }
}

/// What to do about an erasure set.
#[derive(Clone, Copy, Debug, PartialEq, Eq, Structural)]
pub enum RecoveryPlan {
    /// Nothing: it is done, under way, complete, or cannot be recovered yet.
    Nothing,
    /// Recover it on the ingest thread.
    Inline,
    /// Hand it to the recovery workers.
    Queue,
}

/// A recovery for which `missing` data shreds are missing is done on the
/// ingest thread: at most `threshold` of them are, and zero turns this off.
pub open spec fn recovers_inline(missing: u16, threshold: u16) -> bool {
    threshold > 0 && missing <= threshold
}

/// How many of the data shreds of a set are missing.
pub open spec fn missing_data_shreds(set: Seq<ShredView>) -> u16 {
    let (expected, _, present, _) = data_shred_info(set);
    if present < expected {
        (expected - present) as u16
    } else {
        0
    }
}

/// A set can and needs to be recovered from the shreds held of it: it is
/// known how many data shreds it has, there are as many shreds as that, and
/// they are not just the data shreds.
pub open spec fn recoverable(set: Seq<ShredView>) -> bool {
    let (expected, _, present, _) = data_shred_info(set);
    expected != 0 && set.len() >= expected && present != expected
}

impl SlotView {
    /// What to do about an erasure set of this slot.
    pub open spec fn recovery_plan(self, fec_set_index: u32, threshold: u16) -> RecoveryPlan {
        if self.tracker.already_recovered_fec_sets[fec_set_index as int]
            || self.tracker.recovery_in_flight[fec_set_index as int]
            || !self.fec_sets.contains_key(fec_set_index)
            || !recoverable(self.fec_sets[fec_set_index]) {
            RecoveryPlan::Nothing
        } else if recovers_inline(
            missing_data_shreds(self.fec_sets[fec_set_index]),
            threshold,
        ) {
            RecoveryPlan::Inline
        } else {
            RecoveryPlan::Queue
        }
    }

    /// The slot once the recovery of a set is in the workers' hands.
    pub open spec fn recovery_queued(self, fec_set_index: u32) -> SlotView {
        SlotView {
            tracker: TrackerView {
                recovery_in_flight: self.tracker.recovery_in_flight.update(
                    fec_set_index as int,
                    true,
                ),
                ..self.tracker
            },
            ..self
        }
    }
}

/// What the ingest thread holds: the slots in memory, the highest slot of
/// which a shred was accepted, the erasure sets to look at in this tick, those
/// whose recovery waits for room in the queue, and the counters.
#[verifier::ext_equal]
pub struct IngestView {
    pub slots: Map<u64, SlotView>,
    pub highest_slot_seen: u64,
    pub touched: Seq<(u64, u32)>,
    pub deferred: Seq<(u64, u32)>,
    pub stats: DecoderStats,
}

impl IngestView {
    /// Nothing has been seen.
    pub open spec fn empty() -> IngestView {
        IngestView {
            slots: Map::empty(),
            highest_slot_seen: 0,
            touched: Seq::empty(),
            deferred: Seq::empty(),
            stats: DecoderStats::zero(),
        }
    }

    /// Every slot in memory fits together, and every erasure set to look at
    /// has an index that addresses the tables.
    pub open spec fn wf(self) -> bool {
        &&& forall|slot: u64| #[trigger]
            self.slots.contains_key(slot) ==> self.slots[slot].wf(slot)
        &&& keys_wf(self.touched)
        &&& keys_wf(self.deferred)
    }

    /// The slot, or an empty one where it is not in memory.
    pub open spec fn slot_or_empty(self, slot: u64) -> SlotView {
        if self.slots.contains_key(slot) {
            self.slots[slot]
        } else {
            SlotView::empty()
        }
    }

    /// The lowest slot that is still taken.
    pub open spec fn oldest_slot(self) -> u64 {
        if self.highest_slot_seen < SLOT_LOOKBACK {
            0
        } else {
            (self.highest_slot_seen - SLOT_LOOKBACK) as u64
        }
    }

    /// The state with another value of one slot.
    pub open spec fn with_slot(self, slot: u64, value: SlotView) -> IngestView {
        IngestView { slots: self.slots.insert(slot, value), ..self }
    }

    /// A shred whose indexes address the tables is entered.
    pub open spec fn accepts(self, shred: ShredView) -> bool {
        shred.slot() >= self.oldest_slot() && self.slot_or_empty(shred.slot()).accepts(shred)
    }

    /// The state after a shred came in. One whose indexes lie outside the
    /// tables is passed over. Any other brings its slot into memory, and is
    /// entered if there is a use for it.
    pub open spec fn after_shred(self, shred: ShredView) -> IngestView {
        let slot = shred.slot();
        let held = self.slot_or_empty(slot);
        if !shred.in_range() {
            self
        } else if !self.accepts(shred) {
            self.with_slot(slot, held)
        } else {
            IngestView {
                slots: self.slots.insert(slot, held.with_shred(shred)),
                touched: self.touched.push((slot, shred.fec_set_index())),
                highest_slot_seen: if self.highest_slot_seen < slot {
                    slot
                } else {
                    self.highest_slot_seen
                },
                ..self
            }
        }
    }

    /// The state after some shreds came in, one after the other.
    pub open spec fn after_shreds(self, shreds: Seq<ShredView>) -> IngestView
        decreases shreds.len(),
    {
        if shreds.len() == 0 {
            self
        } else {
            self.after_shreds(shreds.drop_last()).after_shred(shreds.last())
        }
    }
}

impl IngestView {
    /// The indexes in a result address the tables of its slot, if that is in
    /// memory.
    pub open spec fn addresses_result(self, result: ResultView) -> bool {
        self.slots.contains_key(result.slot) ==> {
            &&& result.fec_set_index < MAX_DATA_SHREDS_PER_SLOT
            &&& self.slots[result.slot].tracker.addresses_all(result.recovered)
        }
    }

    /// The state after the result of a recovery came in. A result for a slot
    /// that is no longer in memory is dropped. One that is empty counts as a
    /// failure. Any other makes its set one to look at.
    pub open spec fn after_result(self, result: ResultView) -> IngestView {
        if !self.slots.contains_key(result.slot) {
            self
        } else {
            let held = self.slots[result.slot];
            if result.recovered.len() == 0 {
                IngestView {
                    slots: self.slots.insert(
                        result.slot,
                        held.recovery_failed(result.fec_set_index),
                    ),
                    stats: self.stats.with_recovery_error(),
                    ..self
                }
            } else {
                IngestView {
                    slots: self.slots.insert(
                        result.slot,
                        held.recovery_succeeded(result.fec_set_index, result.recovered),
                    ),
                    touched: self.touched.push((result.slot, result.fec_set_index)),
                    stats: self.stats.with_recovered(held.tracker.admitted(result.recovered)),
                    ..self
                }
            }
        }
    }
}

impl IngestView {
    /// The state after some results came in, one after the other.
    pub open spec fn after_results(self, results: Seq<ResultView>) -> IngestView
        decreases results.len(),
    {
        if results.len() == 0 {
            self
        } else {
            self.after_results(results.drop_last()).after_result(results.last())
        }
    }

    /// Each of some results, coming in one after the other, addresses the
    /// tables.
    pub open spec fn addresses_results(self, results: Seq<ResultView>) -> bool
        decreases results.len(),
    {
        results.len() == 0 || {
            &&& self.addresses_results(results.drop_last())
            &&& self.after_results(results.drop_last()).addresses_result(results.last())
        }
    }
}

/// Offering shreds does not look at what is being recovered.
pub proof fn lemma_in_flight_is_not_read(t: TrackerView, f: int, shreds: Seq<ShredView>)
    requires
        t.sized(),
        t.addresses_all(shreds),
    ensures
        ({
            let u = TrackerView { recovery_in_flight: t.recovery_in_flight.update(f, false), ..t };
            &&& u.addresses_all(shreds)
            &&& u.offered_all(shreds) == (TrackerView {
                recovery_in_flight: t.offered_all(shreds).recovery_in_flight.update(f, false),
                ..t.offered_all(shreds)
            })
            &&& u.admitted(shreds) == t.admitted(shreds)
        }),
    decreases shreds.len(),
{
    let u = TrackerView { recovery_in_flight: t.recovery_in_flight.update(f, false), ..t };
    assert(u.addresses_all(shreds)) by {
        assert forall|i: int| 0 <= i < shreds.len() implies u.addresses(#[trigger] shreds[i]) by {
            assert(t.addresses(shreds[i]));
        }
    }
    if shreds.len() > 0 {
        let front = shreds.drop_last();
        assert(t.addresses_all(front)) by {
            assert forall|i: int| 0 <= i < front.len() implies t.addresses(
                #[trigger] front[i],
            ) by {
                assert(front[i] == shreds[i]);
            }
        }
        lemma_in_flight_is_not_read(t, f, front);
    }
}

/// A result that comes in leaves a state that fits together.
pub proof fn law_result_keeps_wf(v: IngestView, result: ResultView)
    requires
        v.wf(),
        v.addresses_result(result),
    ensures
        v.after_result(result).wf(),
{
    if v.slots.contains_key(result.slot) {
        let held = v.slots[result.slot];
        assert(held.wf(result.slot));
        let failed = held.recovery_failed(result.fec_set_index);
        assert(failed.tracker.wf()) by {
            assert forall|i: int|
                0 <= i < MAX_DATA_SHREDS_PER_SLOT implies #[trigger] failed.tracker.consistent_at(
                i,
            ) by {
                assert(held.tracker.consistent_at(i));
            }
        }
        assert(failed.wf(result.slot));
        crate::state::law_offering_only_adds(held.tracker, result.recovered);
        let filled = held.tracker.offered_all(result.recovered);
        let done = held.recovery_succeeded(result.fec_set_index, result.recovered);
        assert(done.tracker.wf()) by {
            assert forall|i: int|
                0 <= i < MAX_DATA_SHREDS_PER_SLOT implies #[trigger] done.tracker.consistent_at(
                i,
            ) by {
                assert(filled.consistent_at(i));
            }
        }
        assert forall|g: u32| #[trigger] done.fec_sets.contains_key(g) implies fec_set_wf(
            result.slot,
            g,
            done.fec_sets[g],
        ) by {
            assert(held.fec_sets.contains_key(g));
            assert(fec_set_wf(result.slot, g, held.fec_sets[g]));
        }
        assert(done.wf(result.slot));
    }
}

/// A pass over erasure sets to recover: the sets, how far the pass has come,
/// and whether the queue has turned a job away.
#[verifier::ext_equal]
pub struct RoundView {
    pub work: Seq<(u64, u32)>,
    pub next: nat,
    pub pool_full: bool,
}

impl RoundView {
    /// The pass behind the set that it has come to.
    pub open spec fn step(self) -> RoundView {
        RoundView { next: self.next + 1, ..self }
    }

    /// The job of the set that the pass has come to is offered to the queue,
    /// which has not turned one away before, and the queue takes it: the first
    /// of `sends` says so.
    pub open spec fn takes(self, sends: Seq<(JobView, bool)>) -> bool {
        !self.pool_full && sends.len() > 0 && sends[0].1
    }

    /// The pass behind a set whose job is to go to the queue.
    pub open spec fn after_offer(self, sends: Seq<(JobView, bool)>) -> RoundView {
        RoundView { next: self.next + 1, pool_full: !self.takes(sends), ..self }
    }

    /// What is left of `sends` behind that set.
    pub open spec fn sends_left(self, sends: Seq<(JobView, bool)>) -> Seq<(JobView, bool)> {
        if self.pool_full || sends.len() == 0 {
            sends
        } else {
            sends.skip(1)
        }
    }
}

/// The erasure set that a job is for.
pub open spec fn job_key(job: JobView) -> (u64, u32) {
    (job.slot, job.fec_set_index)
}

impl IngestView {
    /// What to do about an erasure set.
    pub open spec fn plan_for(self, key: (u64, u32), threshold: u16) -> RecoveryPlan {
        if self.slots.contains_key(key.0) {
            self.slots[key.0].recovery_plan(key.1, threshold)
        } else {
            RecoveryPlan::Nothing
        }
    }

    /// `job` is the recovery of the set `key`: its shreds are all those held
    /// of the set, in the order in which a recovery takes them.
    pub open spec fn is_job(self, key: (u64, u32), job: JobView) -> bool {
        &&& job.slot == key.0
        &&& job.fec_set_index == key.1
        &&& in_recovery_order(self.slots[key.0].fec_sets[key.1], job.shreds)
    }

    /// A recovery of the set `key` is in the workers' hands.
    pub open spec fn in_flight(self, key: (u64, u32)) -> bool {
        &&& self.slots.contains_key(key.0)
        &&& key.1 < MAX_DATA_SHREDS_PER_SLOT
        &&& self.slots[key.0].tracker.recovery_in_flight[key.1 as int]
    }

    /// The state once the queue took the job of a set, or turned it away. A
    /// set whose job was turned away waits for the next pass.
    pub open spec fn after_send(self, key: (u64, u32), accepted: bool) -> IngestView {
        if !accepted {
            IngestView { deferred: self.deferred.push(key), ..self }
        } else if self.slots.contains_key(key.0) {
            self.with_slot(key.0, self.slots[key.0].recovery_queued(key.1))
        } else {
            self
        }
    }

    /// The state after a pass from where `round` has come, and how far it
    /// went: to its end, or to a set to be recovered on the ingest thread.
    /// `sends` is what came of the jobs offered to the queue, in order: the
    /// job, and whether the queue took it. None is offered once one has been
    /// turned away.
    pub open spec fn dispatched(self, round: RoundView, threshold: u16, sends: Seq<(JobView, bool)>) -> (
        IngestView,
        RoundView,
        Option<(u64, u32)>,
    )
        decreases round.work.len() - round.next,
    {
        if round.next >= round.work.len() {
            (self, round, None)
        } else {
            let key = round.work[round.next as int];
            match self.plan_for(key, threshold) {
                RecoveryPlan::Nothing => self.dispatched(round.step(), threshold, sends),
                RecoveryPlan::Inline => (self, round.step(), Some(key)),
                RecoveryPlan::Queue => self.after_send(key, round.takes(sends)).dispatched(
                    round.after_offer(sends),
                    threshold,
                    round.sends_left(sends),
                ),
            }
        }
    }

    /// The attempts to send that a pass from where `round` has come makes are
    /// `sends`: one for each set that is to be handed to the workers, until
    /// one is turned away, with the job of that set; and no others.
    pub open spec fn makes_sends(
        self,
        round: RoundView,
        threshold: u16,
        sends: Seq<(JobView, bool)>,
    ) -> bool
        decreases round.work.len() - round.next,
    {
        if round.next >= round.work.len() {
            sends.len() == 0
        } else {
            let key = round.work[round.next as int];
            match self.plan_for(key, threshold) {
                RecoveryPlan::Nothing => self.makes_sends(round.step(), threshold, sends),
                RecoveryPlan::Inline => sends.len() == 0,
                RecoveryPlan::Queue => {
                    &&& !round.pool_full ==> sends.len() > 0 && self.is_job(key, sends[0].0)
                    &&& self.after_send(key, round.takes(sends)).makes_sends(
                        round.after_offer(sends),
                        threshold,
                        round.sends_left(sends),
                    )
                },
            }
        }
    }
}

impl TrackerView {
    /// The tables once the shreds `start..=end` have been handed on, as far as
    /// those shreds are concerned: they need not be again.
    pub open spec fn with_deshredded(self, start: int, end: int) -> TrackerView {
        TrackerView {
            already_deshredded: Seq::new(
                self.already_deshredded.len(),
                |i: int| self.already_deshredded[i] || start <= i <= end,
            ),
            ..self
        }
    }

    /// `shred` speaks of a data shred of its erasure set that has not been
    /// handed on: a data shred of itself, a coding shred of all that it says
    /// the set has.
    pub open spec fn speaks_of_more(self, shred: ShredView) -> bool {
        match shred {
            ShredView::ShredData(_) => !self.already_deshredded[shred.index() as int],
            ShredView::ShredCode(s) => exists|i: int|
                shred.fec_set_index() <= i < shred.fec_set_index()
                    + s.coding_header.num_data_shreds && i < MAX_DATA_SHREDS_PER_SLOT
                    && !#[trigger] self.already_deshredded[i],
        }
    }
}

impl SlotView {
    /// A shred held of the erasure set `f` speaks of a data shred that has not
    /// been handed on.
    pub open spec fn awaits_more(self, f: u32) -> bool {
        exists|k: int|
            0 <= k < self.set_or_empty(f).len() && self.tracker.speaks_of_more(
                #[trigger] self.set_or_empty(f)[k],
            )
    }

    /// The slot once the shreds `start..=end` have been handed on: they need
    /// not be again, and the erasure sets that they are from are done, but for
    /// those that are known to have more.
    pub open spec fn handed_on(self, start: int, end: int) -> SlotView {
        let marked = SlotView { tracker: self.tracker.with_deshredded(start, end), ..self };
        SlotView {
            tracker: TrackerView {
                already_recovered_fec_sets: Seq::new(
                    self.tracker.already_recovered_fec_sets.len(),
                    |f: int|
                        self.tracker.already_recovered_fec_sets[f] || (self.tracker.set_reaches(
                            f,
                            start,
                            end,
                        ) && !marked.awaits_more(f as u32)),
                ),
                ..marked.tracker
            },
            ..self
        }
    }
}

/// A walk over the runs to hand on: the place of an erasure set among those
/// touched, and the lowest index at which a run to look at may end.
#[verifier::ext_equal]
pub struct WalkView {
    pub position: nat,
    pub index: nat,
}

impl WalkView {
    /// The walk has yet to look at the runs of the set at the place `p` that
    /// end at `end`.
    pub open spec fn ahead(self, p: int, end: int) -> bool {
        p > self.position || (p == self.position && end >= self.index)
    }
}

impl IngestView {
    /// `start..=end` is a run of entries of an erasure set that can be handed
    /// on.
    pub open spec fn run_at(self, key: (u64, u32), start: int, end: int) -> bool {
        self.slots.contains_key(key.0) && self.slots[key.0].tracker.run_of_set(
            key.1 as int,
            start,
            end,
        )
    }

    /// The payloads of the data shreds `start..=end` of a slot.
    pub open spec fn payloads(self, slot: u64, start: int, end: int) -> Seq<Seq<u8>> {
        Seq::new(
            (end - start + 1) as nat,
            |i: int| self.slots[slot].tracker.data_shreds[start + i]->0.payload(),
        )
    }

    /// The state once the shreds `start..=end` of a slot have been handed on.
    pub open spec fn after_handing_on(self, slot: u64, start: int, end: int) -> IngestView {
        if self.slots.contains_key(slot) {
            self.with_slot(slot, self.slots[slot].handed_on(start, end))
        } else {
            self
        }
    }
}

impl IngestView {
    /// There are so many slots in memory that old ones are dropped.
    pub open spec fn crowded(self) -> bool {
        self.slots.dom().len() > MAX_PROCESSING_AGE
    }

    /// The state once old slots have been dropped, if there are too many:
    /// those are left of which shreds are still taken.
    pub open spec fn after_cleanup(self) -> IngestView {
        if self.crowded() {
            IngestView {
                slots: self.slots.restrict(Set::new(|slot: u64| slot >= self.oldest_slot())),
                ..self
            }
        } else {
            self
        }
    }

    /// The erasure sets of a slot in memory that are not done.
    pub open spec fn is_incomplete(self, key: (u64, u32)) -> bool {
        &&& self.slots.contains_key(key.0)
        &&& self.slots[key.0].fec_sets.contains_key(key.1)
        &&& !self.slots[key.0].tracker.already_recovered_fec_sets[key.1 as int]
    }

    /// The erasure sets that are dropped with old slots without being done.
    pub open spec fn lost_sets(self) -> Set<(u64, u32)> {
        Set::new(
            |key: (u64, u32)|
                self.crowded() && key.0 < self.oldest_slot() && self.is_incomplete(key),
        )
    }
}

/// Noting that shreds have been handed on leaves tables that agree.
pub proof fn law_handing_on_keeps_wf(v: IngestView, slot: u64, start: int, end: int)
    requires
        v.wf(),
    ensures
        v.after_handing_on(slot, start, end).wf(),
{
    if v.slots.contains_key(slot) {
        let held = v.slots[slot];
        assert(held.wf(slot));
        let after = held.handed_on(start, end);
        assert forall|i: int|
            0 <= i < MAX_DATA_SHREDS_PER_SLOT implies #[trigger] after.tracker.consistent_at(i) by {
            assert(held.tracker.consistent_at(i));
        }
        assert(after.wf(slot));
    }
}

/// Sending a job, or failing to, leaves a state that fits together.
pub proof fn law_send_keeps_wf(v: IngestView, key: (u64, u32), accepted: bool)
    requires
        v.wf(),
        key.1 < MAX_DATA_SHREDS_PER_SLOT,
    ensures
        v.after_send(key, accepted).wf(),
{
    if accepted && v.slots.contains_key(key.0) {
        let held = v.slots[key.0];
        let queued = held.recovery_queued(key.1);
        assert(held.wf(key.0));
        assert forall|i: int|
            0 <= i < MAX_DATA_SHREDS_PER_SLOT implies #[trigger] queued.tracker.consistent_at(
            i,
        ) by {
            assert(held.tracker.consistent_at(i));
        }
        assert(queued.wf(key.0));
    }
}

/// A shred that comes in leaves a state that fits together.
pub proof fn law_ingest_keeps_wf(v: IngestView, shred: ShredView)
    requires
        v.wf(),
    ensures
        v.after_shred(shred).wf(),
{
    let slot = shred.slot();
    let f = shred.fec_set_index();
    let held = v.slot_or_empty(slot);
    assert(held.wf(slot)) by {
        if !v.slots.contains_key(slot) {
            lemma_empty_slot_wf(slot);
        }
    }
    if shred.in_range() && v.accepts(shred) {
        let after = held.with_shred(shred);
        crate::state::law_recording_keeps_wf(held.tracker, shred);
        crate::fec_set::law_insertion_keeps_shreds_different(held.set_or_empty(f), shred);
        assert forall|g: u32| #[trigger] after.fec_sets.contains_key(g) implies fec_set_wf(
            slot,
            g,
            after.fec_sets[g],
        ) by {
            if held.fec_sets.contains_key(g) {
                assert(fec_set_wf(slot, g, held.fec_sets[g]));
            }
        }
        assert(after.wf(slot));
    }
}

/// A slot of which nothing has been seen fits together.
pub proof fn lemma_empty_slot_wf(slot: u64)
    ensures
        SlotView::empty().wf(slot),
{
}

} // verus!
