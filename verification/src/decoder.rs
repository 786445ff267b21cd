//! The ingest thread's work on its state, between the packets, results and
//! queues that it deals with.
use vstd::prelude::*;

use crate::entries::{
    all_transactions, decode_entries, entries_in, entry_views, transaction_views,
    DecodedTransaction,
};
use crate::fec_set::{
    get_data_shred_info, in_recovery_order, shred_views, shreds_for_recovery, views_of, with_shred,
    FecSet,
};
use crate::model::{
    fec_set_wf, keys_wf, IngestView, RecoveryPlan, RoundView, SlotView, WalkView,
    MAX_PROCESSING_AGE, SLOT_LOOKBACK,
};
use crate::recovery::{JobView, RecoveryJob, RecoveryPool, RecoveryResult, ResultView};
use crate::shred::{ComparableShred, Shred, ShredType, ShredView, MAX_DATA_SHREDS_PER_SLOT};
use crate::state::{
    can_offer, is_vacant, next_run, offer_all, record_shred, shred_option_view,
    update_state_tracker,
    ShredsStateTracker,
};
use crate::stats::{counted, DecoderStats};
use crate::table::{
    table_get, table_get_mut, table_insert, table_keys, table_len, table_remove, Table,
};
use crate::worklist::{ascending, lemma_push_contains, sort_and_dedup};

verus! {

broadcast use vstd::std_specs::hash::group_hash_axioms;

/// Lists with the same keys have the same set indexes.
proof fn lemma_same_keys_wf(a: Seq<(u64, u32)>, b: Seq<(u64, u32)>)
    requires
        keys_wf(a),
        a.to_set() == b.to_set(),
    ensures
        keys_wf(b),
{
    assert forall|i: int| 0 <= i < b.len() implies (#[trigger] b[i]).1
        < MAX_DATA_SHREDS_PER_SLOT by {
        assert(b.to_set().contains(b[i]));
        assert(a.contains(b[i]));
    }
}

/// What is held of one slot.
struct SlotState {
    fec_sets: Table<u32, FecSet>,
    tracker: ShredsStateTracker,
}

impl View for SlotState {
    type V = SlotView;

    closed spec fn view(&self) -> SlotView {
        SlotView {
            fec_sets: self.fec_sets@.map_values(|set: FecSet| set@),
            tracker: self.tracker@,
        }
    }
}

impl SlotState {
    fn new() -> (slot: SlotState)
        ensures
            slot@ == SlotView::empty(),
    {
        let slot = SlotState { fec_sets: Table::default(), tracker: ShredsStateTracker::default() };
        assert(slot@.fec_sets =~= Map::empty());
        slot
    }

    /// Whether a shred is a new data shred of an erasure set that was done
    /// when its shreds were handed on.
    fn takes_late(&self, shred: &Shred) -> (r: bool)
        requires
            self@.tracker.sized(),
            shred@.in_range(),
        ensures
            r == self@.takes_late(shred@),
    {
        let fec_set_index: u32 = shred.fec_set_index();
        let held: usize = match table_get(&self.fec_sets, &fec_set_index) {
            Some(set) => set.len(),
            None => 0,
        };
        match shred.shred_type() {
            ShredType::Code => false,
            ShredType::Data => self.tracker.already_recovered_fec_sets[fec_set_index as usize]
                && held > 0 && is_vacant(&self.tracker, shred.index() as usize),
        }
    }

    /// The erasure set of `shred`, made if it is new, takes `shred` in.
    fn insert_shred(&mut self, shred: Shred)
        ensures
            final(self)@.tracker == old(self)@.tracker,
            final(self)@.fec_sets == old(self)@.fec_sets.insert(
                shred@.fec_set_index(),
                with_shred(
                    old(self)@.set_or_empty(shred@.fec_set_index()),
                    shred@,
                ),
            ),
    {
        let fec_set_index: u32 = shred.fec_set_index();
        let ghost before = self@;
        if table_get(&self.fec_sets, &fec_set_index).is_none() {
            table_insert(&mut self.fec_sets, fec_set_index, FecSet::new());
        }
        let ghost made = self.fec_sets@;
        match table_get_mut(&mut self.fec_sets, &fec_set_index) {
            Some(set) => {
                set.insert(ComparableShred(shred));
            },
            None => {},
        }
        assert(self@.fec_sets =~= before.fec_sets.insert(
            fec_set_index,
            with_shred(before.set_or_empty(fec_set_index), shred@),
        ));
    }
}

impl SlotState {
    /// Whether a shred speaks of a data shred of its erasure set that has not
    /// been handed on.
    fn speaks_of_more(&self, shred: &Shred) -> (r: bool)
        requires
            self@.tracker.sized(),
            shred@.in_range(),
        ensures
            r == self@.tracker.speaks_of_more(shred@),
    {
        match shred {
            Shred::ShredData(_) => !self.tracker.already_deshredded[shred.index() as usize],
            Shred::ShredCode(s) => {
                let first: usize = shred.fec_set_index() as usize;
                let bound: usize = first + s.coding_header.num_data_shreds as usize;
                let mut i: usize = first;
                while i < bound && i < MAX_DATA_SHREDS_PER_SLOT
                    invariant
                        first <= i,
                        shred@ == ShredView::ShredCode(s@),
                        first == shred@.fec_set_index(),
                        bound == first + s.coding_header.num_data_shreds,
                        self@.tracker.sized(),
                        forall|j: int| first <= j < i ==> #[trigger] self@.tracker.already_deshredded[j],
                    decreases bound - i,
                {
                    if !self.tracker.already_deshredded[i] {
                        assert(!self@.tracker.already_deshredded[i as int]);
                        return true;
                    }
                    i = i + 1;
                }
                false
            },
        }
    }

    /// Whether a shred held of an erasure set speaks of a data shred that has
    /// not been handed on.
    fn awaits_more(&self, slot: Ghost<u64>, fec_set_index: u32) -> (r: bool)
        requires
            self@.wf(slot@),
        ensures
            r == self@.awaits_more(fec_set_index),
    {
        let set = match table_get(&self.fec_sets, &fec_set_index) {
            Some(set) => set,
            None => return false,
        };
        assert(self@.fec_sets.contains_key(fec_set_index) && self@.fec_sets[fec_set_index]
            == set@);
        let shreds = set.shreds();
        let mut k: usize = 0;
        while k < shreds.len()
            invariant
                k <= shreds.len(),
                self@.tracker.sized(),
                fec_set_wf(slot@, fec_set_index, set@),
                set@ == self@.set_or_empty(fec_set_index),
                set@ == shred_views(shreds@),
                forall|j: int|
                    0 <= j < k ==> !self@.tracker.speaks_of_more(
                        #[trigger] self@.set_or_empty(fec_set_index)[j],
                    ),
            decreases shreds.len() - k,
        {
            assert(set@[k as int] == shreds@[k as int]@);
            if self.speaks_of_more(&shreds[k].0) {
                assert(self@.tracker.speaks_of_more(self@.set_or_empty(fec_set_index)[k as int]));
                return true;
            }
            k = k + 1;
        }
        false
    }

    /// Marks the shreds `start..=end` as handed on, and the erasure sets that
    /// they are from as done, but for those that are known to have more.
    fn mark_handed_on(&mut self, slot: Ghost<u64>, start: usize, end: usize)
        requires
            old(self)@.wf(slot@),
        ensures
            final(self)@ == old(self)@.handed_on(start as int, end as int),
    {
        let ghost before = self@;
        let ghost t = self.tracker@;
        let ghost sets = self.fec_sets@;
        let mut i: usize = start;
        while i <= end && i < self.tracker.data_status.len()
            invariant
                start <= i,
                t.wf(),
                i <= MAX_DATA_SHREDS_PER_SLOT || i == start,
                i <= end + 1 || i == start,
                self.fec_sets@ == sets,
                self.tracker@.data_status == t.data_status,
                self.tracker@.data_shreds == t.data_shreds,
                self.tracker@.recovery_in_flight == t.recovery_in_flight,
                self.tracker@.already_recovered_fec_sets == t.already_recovered_fec_sets,
                self.tracker@.already_deshredded.len() == MAX_DATA_SHREDS_PER_SLOT,
                forall|j: int|
                    0 <= j < MAX_DATA_SHREDS_PER_SLOT ==> (
                    #[trigger] self.tracker@.already_deshredded[j]) == (t.already_deshredded[j]
                        || start <= j < i),
            decreases MAX_DATA_SHREDS_PER_SLOT - i,
        {
            self.tracker.already_deshredded[i] = true;
            i = i + 1;
        }
        let ghost marked = SlotView {
            tracker: t.with_deshredded(start as int, end as int),
            ..before
        };
        assert(self.tracker@ =~= marked.tracker);
        assert(self@ =~= marked);
        assert(marked.wf(slot@)) by {
            assert forall|j: int|
                0 <= j < MAX_DATA_SHREDS_PER_SLOT implies #[trigger] marked.tracker.consistent_at(
                j,
            ) by {
                assert(t.consistent_at(j));
            }
        }
        i = start;
        while i <= end && i < self.tracker.data_status.len()
            invariant
                start <= i,
                t.wf(),
                marked.tracker == t.with_deshredded(start as int, end as int),
                marked.wf(slot@),
                i <= MAX_DATA_SHREDS_PER_SLOT || i == start,
                i <= end + 1 || i == start,
                self@.fec_sets == marked.fec_sets,
                self.tracker@.data_status == t.data_status,
                self.tracker@.data_shreds == t.data_shreds,
                self.tracker@.recovery_in_flight == t.recovery_in_flight,
                self.tracker@.already_deshredded == marked.tracker.already_deshredded,
                self.tracker@.already_recovered_fec_sets.len() == MAX_DATA_SHREDS_PER_SLOT,
                forall|f: int|
                    0 <= f < MAX_DATA_SHREDS_PER_SLOT ==> (
                    #[trigger] self.tracker@.already_recovered_fec_sets[f]) == (
                    t.already_recovered_fec_sets[f] || (t.set_reaches(f, start as int, i - 1)
                        && !marked.awaits_more(f as u32))),
            decreases MAX_DATA_SHREDS_PER_SLOT - i,
        {
            proof {
                assert(t.consistent_at(i as int));
                assert(t.data_shreds[i as int] == shred_option_view(
                    self.tracker.data_shreds@[i as int],
                ));
                assert forall|f: int| t.set_reaches(f, start as int, i as int) == (t.set_reaches(
                    f,
                    start as int,
                    i - 1,
                ) || (t.data_shreds[i as int] matches Some(s) && s.fec_set_index() == f)) by {
                    if t.set_reaches(f, start as int, i as int) {
                        let j = choose|j: int|
                            start <= j <= i && j < t.data_shreds.len() && (
                            #[trigger] t.data_shreds[j] matches Some(s) && s.fec_set_index() == f);
                        if j < i {
                            assert(t.set_reaches(f, start as int, i - 1));
                        }
                    }
                }
                assert(self@.wf(slot@)) by {
                    assert forall|j: int|
                        0 <= j < MAX_DATA_SHREDS_PER_SLOT implies #[trigger] self@.tracker.consistent_at(
                        j,
                    ) by {
                        assert(t.consistent_at(j));
                    }
                }
                lemma_awaiting_reads_deshredded_only(marked, self@);
            }
            if let Some(shred) = &self.tracker.data_shreds[i] {
                let fec_set_index: u32 = shred.fec_set_index();
                let fi: usize = fec_set_index as usize;
                if !self.tracker.already_recovered_fec_sets[fi] && !self.awaits_more(
                    slot,
                    fec_set_index,
                ) {
                    self.tracker.already_recovered_fec_sets[fi] = true;
                }
            }
            i = i + 1;
        }
        assert(self@ =~= before.handed_on(start as int, end as int)) by {
            assert forall|f: int| t.set_reaches(f, start as int, end as int) == t.set_reaches(
                f,
                start as int,
                i - 1,
            ) by {
                if t.set_reaches(f, start as int, end as int) {
                    let j = choose|j: int|
                        start <= j <= end && j < t.data_shreds.len() && (
                        #[trigger] t.data_shreds[j] matches Some(s) && s.fec_set_index() == f);
                    assert(j < i);
                    assert(t.set_reaches(f, start as int, i - 1));
                }
                if t.set_reaches(f, start as int, i - 1) {
                    let j = choose|j: int|
                        start <= j <= i - 1 && j < t.data_shreds.len() && (
                        #[trigger] t.data_shreds[j] matches Some(s) && s.fec_set_index() == f);
                    assert(j <= end);
                }
            }
            assert(self@.tracker =~= before.handed_on(start as int, end as int).tracker);
        }
    }
}

/// Whether an erasure set awaits more does not depend on which sets are done.
proof fn lemma_awaiting_reads_deshredded_only(a: SlotView, b: SlotView)
    requires
        a.fec_sets == b.fec_sets,
        a.tracker.already_deshredded == b.tracker.already_deshredded,
    ensures
        forall|f: u32| #[trigger] a.awaits_more(f) == b.awaits_more(f),
{
    assert forall|f: u32| #[trigger] a.awaits_more(f) == b.awaits_more(f) by {
        assert(a.set_or_empty(f) == b.set_or_empty(f));
        if a.awaits_more(f) {
            let k = choose|k: int|
                0 <= k < a.set_or_empty(f).len() && a.tracker.speaks_of_more(
                    #[trigger] a.set_or_empty(f)[k],
                );
            assert(b.tracker.speaks_of_more(b.set_or_empty(f)[k]));
        }
        if b.awaits_more(f) {
            let k = choose|k: int|
                0 <= k < b.set_or_empty(f).len() && b.tracker.speaks_of_more(
                    #[trigger] b.set_or_empty(f)[k],
                );
            assert(a.tracker.speaks_of_more(a.set_or_empty(f)[k]));
        }
    }
}

/// What to do about an erasure set, with the job to do.
pub enum PlannedRecovery {
    Nothing,
    Inline(RecoveryJob),
    Queue(RecoveryJob),
}

impl PlannedRecovery {
    /// The kind of plan.
    pub open spec fn plan(self) -> RecoveryPlan {
        match self {
            PlannedRecovery::Nothing => RecoveryPlan::Nothing,
            PlannedRecovery::Inline(_) => RecoveryPlan::Inline,
            PlannedRecovery::Queue(_) => RecoveryPlan::Queue,
        }
    }

    /// The job to do, if there is one.
    pub open spec fn job(self) -> Option<JobView> {
        match self {
            PlannedRecovery::Nothing => None,
            PlannedRecovery::Inline(job) => Some(job@),
            PlannedRecovery::Queue(job) => Some(job@),
        }
    }
}

/// A pass over the erasure sets that may need a recovery.
pub struct DispatchRound {
    work: Vec<(u64, u32)>,
    next: usize,
    pool_full: bool,
}

impl View for DispatchRound {
    type V = RoundView;

    closed spec fn view(&self) -> RoundView {
        RoundView { work: self.work@, next: self.next as nat, pool_full: self.pool_full }
    }
}

impl SlotState {
    /// What to do about an erasure set of this slot.
    fn plan_recovery(&self, slot: u64, fec_set_index: u32, threshold: u16) -> (planned:
        PlannedRecovery)
        requires
            self@.tracker.sized(),
            fec_set_index < MAX_DATA_SHREDS_PER_SLOT,
        ensures
            planned.plan() == self@.recovery_plan(fec_set_index, threshold),
            planned.job() matches Some(job) ==> {
                &&& job.slot == slot
                &&& job.fec_set_index == fec_set_index
                &&& in_recovery_order(self@.fec_sets[fec_set_index], job.shreds)
            },
    {
        let fec_idx: usize = fec_set_index as usize;
        if self.tracker.already_recovered_fec_sets[fec_idx]
            || self.tracker.recovery_in_flight[fec_idx] {
            return PlannedRecovery::Nothing;
        }
        let set = match table_get(&self.fec_sets, &fec_set_index) {
            Some(set) => set,
            None => return PlannedRecovery::Nothing,
        };
        assert(self@.fec_sets[fec_set_index] == set@);
        let (num_expected_data, _, num_data, _) = get_data_shred_info(set.shreds());
        if num_expected_data == 0 || set.len() < num_expected_data as usize || num_data
            == num_expected_data {
            return PlannedRecovery::Nothing;
        }
        let missing: u16 = num_expected_data.saturating_sub(num_data);
        let job = RecoveryJob { slot, fec_set_index, shreds: shreds_for_recovery(set) };
        if threshold > 0 && missing <= threshold {
            PlannedRecovery::Inline(job)
        } else {
            PlannedRecovery::Queue(job)
        }
    }
}

/// A run of data shreds to reassemble: the slot, the first and last index,
/// and the payloads in order.
pub struct Segment<'a> {
    pub slot: u64,
    pub start: usize,
    pub end: usize,
    pub payloads: Vec<&'a Vec<u8>>,
}

impl<'a> Segment<'a> {
    /// The payloads as byte strings.
    pub open spec fn payload_bytes(self) -> Seq<Seq<u8>> {
        self.payloads@.map_values(|p: &Vec<u8>| p@)
    }
}

/// A walk over the runs to hand on.
pub struct EmitWalk {
    position: usize,
    index: usize,
}

impl View for EmitWalk {
    type V = WalkView;

    closed spec fn view(&self) -> WalkView {
        WalkView { position: self.position as nat, index: self.index as nat }
    }
}

/// What the ingest thread has waited for.
pub enum IngestEvent {
    /// A batch of packets came; these shreds were in it.
    Packets(Vec<Shred>),
    /// A worker has finished a recovery.
    Recovered(RecoveryResult),
    /// No packets will come any more.
    PacketsClosed,
    /// No results will come any more.
    ResultsClosed,
    /// Nothing came in time.
    Idle,
}

/// The steps that the ingest thread goes through in each tick.
#[derive(Clone, Copy, Debug, PartialEq, Eq, Structural)]
pub enum TickStep {
    /// See whether the decoder is shutting down.
    CheckExit,
    /// Apply the results that wait.
    DrainBefore,
    /// Wait for packets or a result, and take it in.
    AwaitEvent,
    /// Hand out recoveries.
    Dispatch,
    /// Apply the results that came meanwhile.
    DrainAfter,
    /// Hand on the runs that are complete.
    Emit,
    /// Drop old slots.
    Cleanup,
    /// Shut the workers down and end the thread.
    Stop,
}

/// The step after `step`. `halt` says, of the check for a shutdown, that
/// there is one, and of the wait, that no packets will come any more.
pub open spec fn step_after(step: TickStep, halt: bool) -> TickStep {
    match step {
        TickStep::CheckExit => if halt {
            TickStep::Stop
        } else {
            TickStep::DrainBefore
        },
        TickStep::DrainBefore => TickStep::AwaitEvent,
        TickStep::AwaitEvent => if halt {
            TickStep::Stop
        } else {
            TickStep::Dispatch
        },
        TickStep::Dispatch => TickStep::DrainAfter,
        TickStep::DrainAfter => TickStep::Emit,
        TickStep::Emit => TickStep::Cleanup,
        TickStep::Cleanup => TickStep::CheckExit,
        TickStep::Stop => TickStep::Stop,
    }
}

/// Computes [`step_after`].
pub fn next_step(step: TickStep, halt: bool) -> (next: TickStep)
    ensures
        next == step_after(step, halt),
{
    match step {
        TickStep::CheckExit => if halt {
            TickStep::Stop
        } else {
            TickStep::DrainBefore
        },
        TickStep::DrainBefore => TickStep::AwaitEvent,
        TickStep::AwaitEvent => if halt {
            TickStep::Stop
        } else {
            TickStep::Dispatch
        },
        TickStep::Dispatch => TickStep::DrainAfter,
        TickStep::DrainAfter => TickStep::Emit,
        TickStep::Emit => TickStep::Cleanup,
        TickStep::Cleanup => TickStep::CheckExit,
        TickStep::Stop => TickStep::Stop,
    }
}

/// The steps that follow `step`, with what each learns in `halts`.
pub open spec fn steps_from(step: TickStep, halts: Seq<bool>) -> Seq<TickStep>
    decreases halts.len(),
{
    if halts.len() == 0 {
        Seq::empty()
    } else {
        let front = steps_from(step, halts.drop_last());
        let last = if front.len() == 0 {
            step
        } else {
            front.last()
        };
        front.push(step_after(last, halts.last()))
    }
}

/// In a tick that is not cut short, waiting results are applied twice: before
/// the wait, and once more between handing out recoveries and handing on
/// runs. Only the check for a shutdown and the wait can cut a tick short.
pub proof fn law_results_are_drained_twice_per_tick(halts: Seq<bool>)
    requires
        halts.len() == 7,
        !halts[0],
        !halts[2],
    ensures
        steps_from(TickStep::CheckExit, halts) == seq![
            TickStep::DrainBefore,
            TickStep::AwaitEvent,
            TickStep::Dispatch,
            TickStep::DrainAfter,
            TickStep::Emit,
            TickStep::Cleanup,
            TickStep::CheckExit,
        ],
{
    reveal_with_fuel(steps_from, 8);
}

/// Once the thread has stopped, it does nothing more.
pub proof fn law_stopped_thread_stays_stopped(halts: Seq<bool>)
    ensures
        steps_from(TickStep::Stop, halts) == Seq::new(halts.len(), |i: int| TickStep::Stop),
    decreases halts.len(),
{
    if halts.len() > 0 {
        law_stopped_thread_stays_stopped(halts.drop_last());
    }
}

/// Packets shorter than this hold no shred.
pub const MIN_PACKET_BYTES: usize = 64;

/// Whether a packet is long enough to be looked at.
pub fn is_candidate_packet(packet: &[u8]) -> (r: bool)
    ensures
        r == (packet@.len() >= MIN_PACKET_BYTES),
{
    packet.len() >= MIN_PACKET_BYTES
}

/// How often, in seconds, the filter for repeated packets is looked after.
pub const DEDUP_CHECK_SECONDS: u64 = 2;

/// Whether the filter for repeated packets is to be looked after, so many
/// whole seconds after it last was.
pub fn dedup_check_due(elapsed_seconds: u64) -> (due: bool)
    ensures
        due == (elapsed_seconds >= DEDUP_CHECK_SECONDS),
{
    elapsed_seconds >= DEDUP_CHECK_SECONDS
}

/// The state of the ingest thread.
pub struct IngestState {
    slots: Table<u64, SlotState>,
    highest_slot_seen: u64,
    touched: Vec<(u64, u32)>,
    deferred: Vec<(u64, u32)>,
    stats: DecoderStats,
}

impl View for IngestState {
    type V = IngestView;

    closed spec fn view(&self) -> IngestView {
        IngestView {
            slots: self.slots@.map_values(|s: SlotState| s@),
            highest_slot_seen: self.highest_slot_seen,
            touched: self.touched@,
            deferred: self.deferred@,
            stats: self.stats,
        }
    }
}

impl IngestState {
    pub fn new() -> (state: IngestState)
        ensures
            state@ == IngestView::empty(),
            state@.wf(),
    {
        let state = IngestState {
            slots: Table::default(),
            highest_slot_seen: 0,
            touched: Vec::new(),
            deferred: Vec::new(),
            stats: DecoderStats::default(),
        };
        assert(state@ =~= IngestView::empty());
        state
    }

    /// The counters.
    pub fn stats(&self) -> (stats: &DecoderStats)
        ensures
            *stats == self@.stats,
    {
        &self.stats
    }

    /// Takes in one shred.
    fn ingest_shred(&mut self, shred: Shred)
        requires
            old(self)@.wf(),
        ensures
            final(self)@ == old(self)@.after_shred(shred@),
            final(self)@.wf(),
    {
        let ghost before = self@;
        proof {
            crate::model::law_ingest_keeps_wf(before, shred@);
        }
        if !shred.is_in_range() {
            return;
        }
        let slot: u64 = shred.slot();
        let index: usize = shred.index() as usize;
        let fec_set_index: u32 = shred.fec_set_index();
        if table_get(&self.slots, &slot).is_none() {
            table_insert(&mut self.slots, slot, SlotState::new());
        }
        let ghost held = before.slot_or_empty(slot);
        let ghost brought_in = before.with_slot(slot, held);
        assert(self@ =~= brought_in);
        if self.highest_slot_seen.saturating_sub(SLOT_LOOKBACK) > slot {
            return;
        }
        proof {
            if !before.slots.contains_key(slot) {
                crate::model::lemma_empty_slot_wf(slot);
            }
            assert(held.wf(slot));
        }
        let ghost base = self.slots@;
        let mut accepted = false;
        match table_get_mut(&mut self.slots, &slot) {
            Some(state) => {
                if !state.tracker.already_deshredded[index] {
                    if state.takes_late(&shred) {
                        record_shred(&shred, &mut state.tracker);
                        accepted = true;
                    } else {
                        accepted = update_state_tracker(&shred, &mut state.tracker).is_some();
                    }
                }
                if accepted {
                    state.insert_shred(shred);
                }
            },
            None => {},
        }
        if accepted {
            self.touched.push((slot, fec_set_index));
            if self.highest_slot_seen < slot {
                self.highest_slot_seen = slot;
            }
        }
        assert(self@ =~= before.after_shred(shred@));
    }

    /// Whether the indexes in a result address the tables of its slot, so
    /// that it can be applied.
    pub fn accepts_result(&self, result: &RecoveryResult) -> (r: bool)
        requires
            self@.wf(),
        ensures
            r == self@.addresses_result(result@),
    {
        match table_get(&self.slots, &result.slot) {
            None => true,
            Some(state) => {
                assert(self@.slots.contains_key(result.slot));
                assert(self@.slots[result.slot] == state@);
                if result.fec_set_index as usize >= MAX_DATA_SHREDS_PER_SLOT {
                    return false;
                }
                let mut i: usize = 0;
                while i < result.recovered.len()
                    invariant
                        i <= result.recovered.len(),
                        state.tracker@.sized(),
                        self@.slots.contains_key(result.slot),
                        self@.slots[result.slot].tracker == state.tracker@,
                        forall|j: int|
                            0 <= j < i ==> state.tracker@.addresses(
                                #[trigger] result@.recovered[j],
                            ),
                    decreases result.recovered.len() - i,
                {
                    assert(result@.recovered[i as int] == result.recovered@[i as int]@);
                    if !can_offer(&state.tracker, &result.recovered[i]) {
                        return false;
                    }
                    i = i + 1;
                }
                true
            },
        }
    }

    /// Applies the result of a recovery.
    pub fn apply_recovery_result(&mut self, result: RecoveryResult)
        requires
            old(self)@.wf(),
            old(self)@.addresses_result(result@),
        ensures
            final(self)@ == old(self)@.after_result(result@),
            final(self)@.wf(),
    {
        let ghost before = self@;
        proof {
            crate::model::law_result_keeps_wf(before, result@);
        }
        let slot: u64 = result.slot;
        let fec_set_index: u32 = result.fec_set_index;
        let fec_idx: usize = fec_set_index as usize;
        match table_get_mut(&mut self.slots, &slot) {
            None => {
                assert(self@ =~= before);
                return;
            },
            Some(state) => {
                assert(before.slots.contains_key(slot) && before.slots[slot] == state@);
                let ghost held = state.tracker@;
                state.tracker.recovery_in_flight[fec_idx] = false;
                if result.recovered.len() == 0 {
                    self.stats.add_recovery_error();
                    assert(state@ =~= before.slots[slot].recovery_failed(fec_set_index));
                } else {
                    proof {
                        crate::model::lemma_in_flight_is_not_read(
                            held,
                            fec_idx as int,
                            result@.recovered,
                        );
                        crate::state::law_offering_only_adds(held, result@.recovered);
                    }
                    let used: u64 = offer_all(&result.recovered, &mut state.tracker);
                    self.stats.add_recovered(used);
                    state.tracker.already_recovered_fec_sets[fec_idx] = true;
                    match table_get_mut(&mut state.fec_sets, &fec_set_index) {
                        Some(set) => {
                            set.clear();
                        },
                        None => {},
                    }
                    self.touched.push((slot, fec_set_index));
                    assert(state@ =~= before.slots[slot].recovery_succeeded(
                        fec_set_index,
                        result@.recovered,
                    ));
                }
            },
        }
        assert(self@ =~= before.after_result(result@));
    }

    /// Takes and applies results, one after the other, until none waits. One
    /// with an index outside the tables of its slot comes back and ends this,
    /// as does any after so many that they cannot be counted. Which results
    /// wait rests on the workers.
    pub fn drain_recovery_results(&mut self, pool: &mut RecoveryPool) -> (r: Result<
        (),
        RecoveryResult,
    >)
        requires
            old(self)@.wf(),
        ensures
            exists|results: Seq<ResultView>|
                #![trigger old(self)@.after_results(results)]
                {
                    &&& old(self)@.addresses_results(results)
                    &&& final(self)@ == old(self)@.after_results(results)
                    &&& results.to_set().subset_of(old(pool).results_given())
                    &&& final(pool).receives() == old(pool).receives() + results.map_values(
                        |x: ResultView| Some(x),
                    ) + seq![
                        match r {
                            Ok(()) => None,
                            Err(back) => Some(back@),
                        },
                    ]
                    &&& r matches Err(back) ==> {
                        ||| !final(self)@.addresses_result(back@)
                        ||| results.len() == usize::MAX
                    }
                },
            r matches Err(back) ==> old(pool).results_given().contains(back@),
            final(pool).sends() == old(pool).sends(),
            final(pool).same_queues(*old(pool)),
            final(self)@.wf(),
    {
        let ghost v0 = self@;
        let ghost p0 = *pool;
        let ghost mut results: Seq<ResultView> = Seq::empty();
        let mut left: usize = usize::MAX;
        assert(p0.receives() + results.map_values(|x: ResultView| Some(x)) =~= p0.receives());
        loop
            invariant
                v0 == old(self)@,
                p0 == *old(pool),
                self@.wf(),
                v0.addresses_results(results),
                self@ == v0.after_results(results),
                results.to_set().subset_of(p0.results_given()),
                results.len() + left == usize::MAX,
                pool.receives() == p0.receives() + results.map_values(|x: ResultView| Some(x)),
                pool.sends() == p0.sends(),
                pool.same_queues(p0),
            decreases left,
        {
            let ghost before = pool.receives();
            let result = match pool.try_recv() {
                None => {
                    assert(pool.receives() =~= before + seq![None]);
                    return Ok(());
                },
                Some(result) => result,
            };
            if left == 0 || !self.accepts_result(&result) {
                assert(pool.receives() =~= before + seq![Some(result@)]);
                return Err(result);
            }
            proof {
                let more = results.push(result@);
                assert(more.drop_last() =~= results);
                assert(more.map_values(|x: ResultView| Some(x)) =~= results.map_values(
                    |x: ResultView| Some(x),
                ).push(Some(result@)));
                assert forall|x: ResultView| #[trigger] more.to_set().contains(x) implies
                    p0.results_given().contains(x) by {
                    lemma_push_contains(results, result@, x);
                    assert(results.to_set().contains(x) || x == result@);
                }
                results = more;
            }
            self.apply_recovery_result(result);
            left = left - 1;
        }
    }

    /// What to do about an erasure set, at most `threshold` missing data
    /// shreds of which are recovered on the ingest thread.
    pub fn plan_recovery(&self, slot: u64, fec_set_index: u32, threshold: u16) -> (planned:
        PlannedRecovery)
        requires
            self@.wf(),
            fec_set_index < MAX_DATA_SHREDS_PER_SLOT,
        ensures
            planned.plan() == self@.plan_for((slot, fec_set_index), threshold),
            planned.job() matches Some(job) ==> self@.is_job((slot, fec_set_index), job),
    {
        match table_get(&self.slots, &slot) {
            None => PlannedRecovery::Nothing,
            Some(state) => {
                assert(self@.slots.contains_key(slot) && self@.slots[slot] == state@);
                state.plan_recovery(slot, fec_set_index, threshold)
            },
        }
    }

    /// Notes whether the queue took the job of an erasure set.
    pub fn settle_dispatch(&mut self, slot: u64, fec_set_index: u32, accepted: bool)
        requires
            old(self)@.wf(),
            fec_set_index < MAX_DATA_SHREDS_PER_SLOT,
        ensures
            final(self)@ == old(self)@.after_send((slot, fec_set_index), accepted),
            final(self)@.wf(),
    {
        let ghost before = self@;
        proof {
            crate::model::law_send_keeps_wf(before, (slot, fec_set_index), accepted);
        }
        if !accepted {
            self.deferred.push((slot, fec_set_index));
            assert(self@ =~= before.after_send((slot, fec_set_index), accepted));
            return;
        }
        match table_get_mut(&mut self.slots, &slot) {
            None => {},
            Some(state) => {
                assert(before.slots.contains_key(slot) && before.slots[slot] == state@);
                state.tracker.recovery_in_flight[fec_set_index as usize] = true;
                assert(state@ =~= before.slots[slot].recovery_queued(fec_set_index));
            },
        }
        assert(self@ =~= before.after_send((slot, fec_set_index), accepted));
    }

    /// Begins a pass over the erasure sets that may need a recovery: those
    /// touched in this tick, and those whose job was turned away in the last.
    pub fn begin_dispatch(&mut self) -> (round: DispatchRound)
        requires
            old(self)@.wf(),
        ensures
            final(self)@ == (IngestView {
                touched: final(self)@.touched,
                deferred: Seq::empty(),
                ..old(self)@
            }),
            ascending(final(self)@.touched),
            final(self)@.touched.to_set() == old(self)@.touched.to_set(),
            ascending(round@.work),
            round@.work.to_set() == old(self)@.touched.to_set() + old(self)@.deferred.to_set(),
            round@.next == 0,
            !round@.pool_full,
            keys_wf(round@.work),
            final(self)@.wf(),
    {
        let ghost before = self@;
        sort_and_dedup(&mut self.touched);
        let mut work: Vec<(u64, u32)> = Vec::new();
        work.append(&mut self.deferred);
        let mut i: usize = 0;
        let ghost waiting = work@;
        while i < self.touched.len()
            invariant
                i <= self.touched.len(),
                work@ == waiting + self.touched@.take(i as int),
            decreases self.touched.len() - i,
        {
            let key = self.touched[i];
            let ghost done = work@;
            work.push(key);
            assert(work@ =~= waiting + self.touched@.take(i + 1));
            i = i + 1;
        }
        let ghost all = work@;
        sort_and_dedup(&mut work);
        proof {
            assert(all =~= waiting + self.touched@);
            assert(waiting =~= before.deferred);
            assert(self@ =~= (IngestView {
                touched: self@.touched,
                deferred: Seq::empty(),
                ..before
            }));
            vstd::seq_lib::seq_to_set_distributes_over_add(waiting, self.touched@);
            lemma_same_keys_wf(before.touched, self.touched@);
            assert(keys_wf(all)) by {
                assert forall|i: int| 0 <= i < all.len() implies (#[trigger] all[i]).1
                    < MAX_DATA_SHREDS_PER_SLOT by {
                    if i < waiting.len() {
                        assert(all[i] == before.deferred[i]);
                    } else {
                        assert(all[i] == self.touched@[i - waiting.len()]);
                    }
                }
            }
            lemma_same_keys_wf(all, work@);
        }
        DispatchRound { work, next: 0, pool_full: false }
    }

    /// Goes on with a pass: hands jobs to the workers until the queue turns
    /// one away, and lets those behind it wait for the next pass. Stops at a
    /// set that is to be recovered on this thread, and returns its job; the
    /// pass goes on with another call once its result has been applied.
    pub fn dispatch_recoveries(
        &mut self,
        round: &mut DispatchRound,
        pool: &mut RecoveryPool,
        threshold: u16,
    ) -> (inline: Option<RecoveryJob>)
        requires
            old(self)@.wf(),
            keys_wf(old(round)@.work),
        ensures
            ({
                let made = final(pool).sends().skip(old(pool).sends().len() as int);
                let (state, pass, stop) = old(self)@.dispatched(old(round)@, threshold, made);
                &&& final(pool).sends() == old(pool).sends() + made
                &&& old(self)@.makes_sends(old(round)@, threshold, made)
                &&& final(self)@ == state
                &&& final(round)@ == pass
                &&& stop is Some == inline is Some
                &&& inline matches Some(job) ==> final(self)@.is_job(stop->0, job@)
                &&& forall|i: int|
                    0 <= i < made.len() && made[i].1 ==> old(pool).jobs_taken().contains(
                        (#[trigger] made[i]).0,
                    )
            }),
            final(pool).receives() == old(pool).receives(),
            final(pool).same_queues(*old(pool)),
            final(self)@.wf(),
            keys_wf(final(round)@.work),
    {
        let ghost v0 = self@;
        let ghost r0 = round@;
        let ghost p0 = *pool;
        let ghost mut made: Seq<(JobView, bool)> = Seq::empty();
        proof {
            assert(p0.sends() + made =~= p0.sends());
            assert forall|rest: Seq<(JobView, bool)>|
                #![trigger self@.dispatched(round@, threshold, rest)]
                #![trigger self@.makes_sends(round@, threshold, rest)]
                v0.dispatched(r0, threshold, made + rest) == self@.dispatched(
                    round@,
                    threshold,
                    rest,
                ) && v0.makes_sends(r0, threshold, made + rest) == self@.makes_sends(
                    round@,
                    threshold,
                    rest,
                ) by {
                assert(made + rest =~= rest);
            }
        }
        while round.next < round.work.len()
            invariant
                v0 == old(self)@,
                r0 == old(round)@,
                p0 == *old(pool),
                self@.wf(),
                keys_wf(round@.work),
                pool.sends() == p0.sends() + made,
                pool.receives() == p0.receives(),
                pool.same_queues(p0),
                forall|i: int|
                    0 <= i < made.len() && made[i].1 ==> p0.jobs_taken().contains(
                        (#[trigger] made[i]).0,
                    ),
                forall|rest: Seq<(JobView, bool)>|
                    #![trigger self@.dispatched(round@, threshold, rest)]
                    #![trigger self@.makes_sends(round@, threshold, rest)]
                    v0.dispatched(r0, threshold, made + rest) == self@.dispatched(
                        round@,
                        threshold,
                        rest,
                    ) && v0.makes_sends(r0, threshold, made + rest) == self@.makes_sends(
                        round@,
                        threshold,
                        rest,
                    ),
            decreases round.work.len() - round.next,
        {
            let (slot, fec_set_index) = round.work[round.next];
            let ghost key = (slot, fec_set_index);
            let ghost v = self@;
            let ghost r = round@;
            let ghost made0 = made;
            assert(r.work[r.next as int] == key);
            round.next = round.next + 1;
            assert(round@ =~= r.step());
            match self.plan_recovery(slot, fec_set_index, threshold) {
                PlannedRecovery::Nothing => {
                    assert forall|rest: Seq<(JobView, bool)>|
                        #![trigger self@.dispatched(round@, threshold, rest)]
                        #![trigger self@.makes_sends(round@, threshold, rest)]
                        v0.dispatched(r0, threshold, made + rest) == self@.dispatched(
                            round@,
                            threshold,
                            rest,
                        ) && v0.makes_sends(r0, threshold, made + rest) == self@.makes_sends(
                            round@,
                            threshold,
                            rest,
                        ) by {
                        assert(v.dispatched(r, threshold, rest) == self@.dispatched(
                            round@,
                            threshold,
                            rest,
                        ));
                        assert(v.makes_sends(r, threshold, rest) == self@.makes_sends(
                            round@,
                            threshold,
                            rest,
                        ));
                    }
                },
                PlannedRecovery::Inline(job) => {
                    proof {
                        let none = Seq::<(JobView, bool)>::empty();
                        assert(made + none =~= made);
                        assert(pool.sends().skip(p0.sends().len() as int) =~= made);
                        assert(v.dispatched(r, threshold, none).0 == v);
                        assert(v.makes_sends(r, threshold, none));
                    }
                    return Some(job);
                },
                PlannedRecovery::Queue(job) => {
                    if round.pool_full {
                        self.settle_dispatch(slot, fec_set_index, false);
                        assert forall|rest: Seq<(JobView, bool)>|
                            #![trigger self@.dispatched(round@, threshold, rest)]
                            #![trigger self@.makes_sends(round@, threshold, rest)]
                            v0.dispatched(r0, threshold, made + rest) == self@.dispatched(
                                round@,
                                threshold,
                                rest,
                            ) && v0.makes_sends(r0, threshold, made + rest) == self@.makes_sends(
                                round@,
                                threshold,
                                rest,
                            ) by {
                            assert(round@ =~= r.after_offer(rest));
                            assert(v.dispatched(r, threshold, rest) == self@.dispatched(
                                round@,
                                threshold,
                                rest,
                            ));
                            assert(v.makes_sends(r, threshold, rest) == self@.makes_sends(
                                round@,
                                threshold,
                                rest,
                            ));
                        }
                    } else {
                        let ghost offered = job@;
                        let taken = pool.try_dispatch(job).is_ok();
                        self.settle_dispatch(slot, fec_set_index, taken);
                        round.pool_full = !taken;
                        proof {
                            made = made0.push((offered, taken));
                            assert(pool.sends() =~= p0.sends() + made);
                            assert forall|rest: Seq<(JobView, bool)>|
                                #![trigger self@.dispatched(round@, threshold, rest)]
                                #![trigger self@.makes_sends(round@, threshold, rest)]
                                v0.dispatched(r0, threshold, made + rest) == self@.dispatched(
                                    round@,
                                    threshold,
                                    rest,
                                ) && v0.makes_sends(r0, threshold, made + rest)
                                    == self@.makes_sends(round@, threshold, rest) by {
                                let with = seq![(offered, taken)] + rest;
                                assert(made + rest =~= made0 + with);
                                assert(with.skip(1) =~= rest);
                                assert(round@ =~= r.after_offer(with));
                                assert(v.dispatched(r, threshold, with) == self@.dispatched(
                                    round@,
                                    threshold,
                                    rest,
                                ));
                                assert(v.makes_sends(r, threshold, with) == self@.makes_sends(
                                    round@,
                                    threshold,
                                    rest,
                                ));
                            }
                        }
                    }
                },
            }
        }
        proof {
            let none = Seq::<(JobView, bool)>::empty();
            assert(made + none =~= made);
            assert(pool.sends().skip(p0.sends().len() as int) =~= made);
            assert(self@.makes_sends(round@, threshold, none));
        }
        None
    }

    /// Makes the list of touched erasure sets one to be walked over, in order
    /// and without repetitions, and begins a walk over their runs.
    pub fn begin_emit(&mut self) -> (walk: EmitWalk)
        requires
            old(self)@.wf(),
        ensures
            final(self)@ == (IngestView { touched: final(self)@.touched, ..old(self)@ }),
            ascending(final(self)@.touched),
            final(self)@.touched.to_set() == old(self)@.touched.to_set(),
            walk@ == (WalkView { position: 0, index: 0 }),
            final(self)@.wf(),
    {
        let ghost before = self@;
        sort_and_dedup(&mut self.touched);
        proof {
            lemma_same_keys_wf(before.touched, self.touched@);
        }
        EmitWalk { position: 0, index: 0 }
    }

    /// The next run to hand on: of the runs that the walk has yet to look at,
    /// the first of the first touched erasure set that has one. The walk goes
    /// on behind it.
    pub fn next_segment<'a>(&'a self, walk: &mut EmitWalk) -> (segment: Option<Segment<'a>>)
        requires
            self@.wf(),
        ensures
            match segment {
                Some(s) => {
                    let found = final(walk)@.position as int;
                    let key = self@.touched[found];
                    &&& found < self@.touched.len()
                    &&& final(walk)@.index == s.end + 1
                    &&& old(walk)@.ahead(found, s.end as int)
                    &&& s.slot == key.0
                    &&& self@.run_at(key, s.start as int, s.end as int)
                    &&& s.payload_bytes() == self@.payloads(key.0, s.start as int, s.end as int)
                    &&& forall|p: int, start: int, end: int|
                        old(walk)@.ahead(p, end) && !final(walk)@.ahead(p, end) && (p != found
                            || end != s.end) ==> !#[trigger] self@.run_at(
                            self@.touched[p],
                            start,
                            end,
                        )
                },
                None => {
                    &&& final(walk)@.position >= self@.touched.len()
                    &&& forall|p: int, start: int, end: int|
                        old(walk)@.ahead(p, end) && p < self@.touched.len()
                            ==> !#[trigger] self@.run_at(self@.touched[p], start, end)
                },
            },
    {
        let ghost w0 = walk@;
        while walk.position < self.touched.len()
            invariant
                self@.wf(),
                w0 == old(walk)@,
                walk@.position > w0.position || walk@ == w0,
                walk@.position > w0.position ==> walk@.index == 0,
                forall|p: int, start: int, end: int|
                    w0.ahead(p, end) && !walk@.ahead(p, end) && p < self@.touched.len()
                        ==> !#[trigger] self@.run_at(self@.touched[p], start, end),
            decreases self.touched.len() - walk.position,
        {
            let (slot, fec_set_index) = self.touched[walk.position];
            let ghost here = walk@;
            let ghost at = here.position as int;
            let ghost key = self@.touched[at];
            assert(key == (slot, fec_set_index));
            if let Some(state) = table_get(&self.slots, &slot) {
                assert(self@.slots.contains_key(slot) && self@.slots[slot] == state@);
                if let Some((start, end)) = next_run(&state.tracker, fec_set_index, walk.index) {
                    let ghost t = state.tracker@;
                    let mut payloads: Vec<&'a Vec<u8>> = Vec::new();
                    let mut i: usize = start;
                    while i <= end
                        invariant
                            start <= i <= end + 1,
                            t == state.tracker@,
                            t.wf(),
                            end < MAX_DATA_SHREDS_PER_SLOT,
                            t.whole_run(start as int, end as int),
                            payloads@.len() == i - start,
                            forall|j: int|
                                0 <= j < i - start ==> (#[trigger] payloads@[j])@
                                    == t.data_shreds[start + j]->0.payload(),
                        decreases end + 1 - i,
                    {
                        proof {
                            crate::state::law_complete_run_is_found(
                                t,
                                start as int,
                                end as int,
                                start as int,
                            );
                            crate::state::law_run_is_complete(
                                t,
                                start as int,
                                start as int,
                                end as int,
                                i as int,
                            );
                            assert(t.data_shreds[i as int] == shred_option_view(
                                state.tracker.data_shreds@[i as int],
                            ));
                        }
                        if let Some(shred) = &state.tracker.data_shreds[i] {
                            payloads.push(shred.payload());
                        }
                        i = i + 1;
                    }
                    walk.index = end + 1;
                    let segment = Segment { slot, start, end, payloads };
                    proof {
                        assert(segment.payload_bytes() =~= self@.payloads(
                            slot,
                            start as int,
                            end as int,
                        ));
                        assert(self@.run_at(key, start as int, end as int));
                        assert forall|p: int, s: int, e: int|
                            w0.ahead(p, e) && !walk@.ahead(p, e) && (p != at || e
                                != end) implies !#[trigger] self@.run_at(
                            self@.touched[p],
                            s,
                            e,
                        ) by {
                            if p == at && here.ahead(p, e) {
                                assert(!t.run_of_set(fec_set_index as int, s, e));
                            }
                        }
                    }
                    return Some(segment);
                }
            }
            proof {
                assert forall|s: int, e: int| here.ahead(at, e) implies !#[trigger] self@.run_at(
                    key,
                    s,
                    e,
                ) by {
                    if self@.slots.contains_key(slot) {
                        assert(!self@.slots[slot].tracker.run_of_set(
                            fec_set_index as int,
                            s,
                            e,
                        ));
                    }
                }
            }
            walk.position = walk.position + 1;
            walk.index = 0;
        }
        None
    }

    /// Counts what came of a run that was reassembled: entries, or nothing
    /// where it did not decode. Returns the transactions in order.
    pub fn accept_entries(&mut self, entries: Option<Vec<Vec<DecodedTransaction>>>) -> (r: Option<
        Vec<DecodedTransaction>,
    >)
        ensures
            match entries {
                None => {
                    &&& r is None
                    &&& final(self)@ == (IngestView {
                        stats: old(self)@.stats.with_decode_error(),
                        ..old(self)@
                    })
                },
                Some(list) => {
                    let transactions = entry_views(list@).flatten();
                    &&& r matches Some(txs) && transaction_views(txs@) == transactions
                    &&& final(self)@ == (IngestView {
                        stats: old(self)@.stats.with_entries(list@.len(), transactions.len()),
                        ..old(self)@
                    })
                },
            },
    {
        match entries {
            None => {
                self.stats.add_decode_error();
                None
            },
            Some(list) => {
                let count: usize = list.len();
                let transactions = all_transactions(list);
                self.stats.add_entries(count as u64, transactions.len() as u64);
                Some(transactions)
            },
        }
    }

    /// Takes a run that was reassembled, or failed to be, and decodes it.
    /// Returns the transactions in it in order, if it decodes.
    pub fn decode_segment(&mut self, reassembled: Result<Vec<u8>, String>) -> (r: Option<
        Vec<DecodedTransaction>,
    >)
        ensures
            match reassembled {
                Err(_) => {
                    &&& r is None
                    &&& final(self)@ == (IngestView {
                        stats: old(self)@.stats.with_recovery_error(),
                        ..old(self)@
                    })
                },
                Ok(payload) => match entries_in(payload@) {
                    None => {
                        &&& r is None
                        &&& final(self)@ == (IngestView {
                            stats: old(self)@.stats.with_decode_error(),
                            ..old(self)@
                        })
                    },
                    Some(list) => {
                        &&& r matches Some(txs) && transaction_views(txs@) == list.flatten()
                        &&& final(self)@ == (IngestView {
                            stats: old(self)@.stats.with_entries(list.len(), list.flatten().len()),
                            ..old(self)@
                        })
                    },
                },
            },
    {
        match reassembled {
            Err(_) => {
                self.stats.add_recovery_error();
                None
            },
            Ok(payload) => {
                let entries = decode_entries(&payload);
                self.accept_entries(entries)
            },
        }
    }

    /// Notes that the shreds `start..=end` of a slot have been handed on.
    pub fn mark_deshredded(&mut self, slot: u64, start: usize, end: usize)
        requires
            old(self)@.wf(),
        ensures
            final(self)@ == old(self)@.after_handing_on(slot, start as int, end as int),
            final(self)@.wf(),
    {
        let ghost before = self@;
        proof {
            crate::model::law_handing_on_keeps_wf(before, slot, start as int, end as int);
        }
        if let Some(state) = table_get_mut(&mut self.slots, &slot) {
            assert(before.slots.contains_key(slot) && before.slots[slot] == state@);
            state.mark_handed_on(Ghost(slot), start, end);
        }
        assert(self@ =~= before.after_handing_on(slot, start as int, end as int));
    }

    /// Takes what reassembling a run gave: decodes it, and notes that its
    /// shreds have been handed on if it decodes. Returns the transactions in
    /// it in order, if it does.
    pub fn settle_segment(
        &mut self,
        slot: u64,
        start: usize,
        end: usize,
        reassembled: Result<Vec<u8>, String>,
    ) -> (r: Option<Vec<DecodedTransaction>>)
        requires
            old(self)@.wf(),
        ensures
            match reassembled {
                Err(_) => {
                    &&& r is None
                    &&& final(self)@ == (IngestView {
                        stats: old(self)@.stats.with_recovery_error(),
                        ..old(self)@
                    })
                },
                Ok(payload) => match entries_in(payload@) {
                    None => {
                        &&& r is None
                        &&& final(self)@ == (IngestView {
                            stats: old(self)@.stats.with_decode_error(),
                            ..old(self)@
                        })
                    },
                    Some(list) => {
                        &&& r matches Some(txs) && transaction_views(txs@) == list.flatten()
                        &&& final(self)@ == (IngestView {
                            stats: old(self)@.stats.with_entries(list.len(), list.flatten().len()),
                            ..old(self)@.after_handing_on(slot, start as int, end as int)
                        })
                    },
                },
            },
            final(self)@.wf(),
    {
        let decoded = self.decode_segment(reassembled);
        if decoded.is_some() {
            self.mark_deshredded(slot, start, end);
        }
        decoded
    }

    /// Ends a tick: no erasure set is touched any more.
    pub fn end_emit(&mut self)
        ensures
            final(self)@ == (IngestView { touched: Seq::empty(), ..old(self)@ }),
    {
        self.touched.clear();
    }

    /// Takes in what the thread has waited for. Returns whether it goes on.
    pub fn on_event(&mut self, event: IngestEvent) -> (go_on: bool)
        requires
            old(self)@.wf(),
            event matches IngestEvent::Recovered(result) ==> old(self)@.addresses_result(result@),
        ensures
            final(self)@ == match event {
                IngestEvent::Packets(shreds) => old(self)@.after_shreds(views_of(shreds@)),
                IngestEvent::Recovered(result) => old(self)@.after_result(result@),
                _ => old(self)@,
            },
            go_on == !(event is PacketsClosed),
            final(self)@.wf(),
    {
        match event {
            IngestEvent::Packets(shreds) => {
                self.ingest_batch(shreds);
                true
            },
            IngestEvent::Recovered(result) => {
                self.apply_recovery_result(result);
                true
            },
            IngestEvent::PacketsClosed => false,
            IngestEvent::ResultsClosed => true,
            IngestEvent::Idle => true,
        }
    }

    /// Drops old slots if there are too many. Returns how many erasure sets
    /// were dropped with them without being done.
    pub fn cleanup(&mut self) -> (lost: u64)
        requires
            old(self)@.wf(),
        ensures
            final(self)@ == old(self)@.after_cleanup(),
            old(self)@.lost_sets().finite(),
            lost == counted(0, old(self)@.lost_sets().len()),
            final(self)@.wf(),
    {
        let ghost before = self@;
        assert(before.slots.dom() =~= self.slots@.dom());
        let mut lost: u64 = 0;
        if table_len(&self.slots) <= MAX_PROCESSING_AGE {
            assert(before.lost_sets() =~= Set::empty());
            return 0;
        }
        let oldest: u64 = self.highest_slot_seen.saturating_sub(SLOT_LOOKBACK);
        let keys = table_keys(&self.slots);
        let ghost mut found: Set<(u64, u32)> = Set::empty();
        let mut i: usize = 0;
        while i < keys.len()
            invariant
                i <= keys.len(),
                before.wf(),
                keys@.no_duplicates(),
                keys@.to_set() == before.slots.dom(),
                oldest == before.oldest_slot(),
                self@ == (IngestView { slots: self@.slots, ..before }),
                forall|slot: u64| #[trigger]
                    self@.slots.contains_key(slot) <==> before.slots.contains_key(slot) && !(slot
                        < oldest && keys@.take(i as int).contains(slot)),
                forall|slot: u64| #[trigger]
                    self@.slots.contains_key(slot) ==> self@.slots[slot] == before.slots[slot],
                found.finite(),
                lost == counted(0, found.len()),
                forall|key: (u64, u32)| #[trigger]
                    found.contains(key) <==> keys@.take(i as int).contains(key.0) && key.0 < oldest
                        && before.is_incomplete(key),
            decreases keys.len() - i,
        {
            let slot: u64 = keys[i];
            let ghost seen = keys@.take(i as int);
            let ghost found_before = found;
            proof {
                assert(keys@.to_set().contains(slot));
                assert(!seen.contains(slot));
                assert(keys@.take(i + 1) =~= seen.push(slot));
                assert forall|s: u64| keys@.take(i + 1).contains(s) <==> seen.contains(s) || s
                    == slot by {
                    lemma_push_contains(seen, slot, s);
                }
            }
            if slot < oldest {
                assert(self@.slots.contains_key(slot));
                if let Some(state) = table_get(&self.slots, &slot) {
                    assert(before.slots[slot] == state@);
                    let sets = table_keys(&state.fec_sets);
                    assert(state.fec_sets@.dom() =~= state@.fec_sets.dom());
                    let mut j: usize = 0;
                    while j < sets.len()
                        invariant
                            j <= sets.len(),
                            state@.wf(slot),
                            state@ == before.slots[slot],
                            before.slots.contains_key(slot),
                            slot < oldest,
                            !seen.contains(slot),
                            sets@.no_duplicates(),
                            sets@.to_set() == state@.fec_sets.dom(),
                            found.finite(),
                            lost == counted(0, found.len()),
                            forall|key: (u64, u32)| #[trigger]
                                found.contains(key) <==> found_before.contains(key) || (key.0
                                    == slot && sets@.take(j as int).contains(key.1)
                                    && before.is_incomplete(key)),
                            forall|key: (u64, u32)| #[trigger]
                                found_before.contains(key) ==> key.0 != slot,
                        decreases sets.len() - j,
                    {
                        let f: u32 = sets[j];
                        let ghost some = sets@.take(j as int);
                        proof {
                            assert(sets@.to_set().contains(f));
                            assert(state@.fec_sets.contains_key(f));
                            assert(!some.contains(f));
                            assert(sets@.take(j + 1) =~= some.push(f));
                            assert forall|g: u32|
                                sets@.take(j + 1).contains(g) <==> some.contains(g) || g == f by {
                                lemma_push_contains(some, f, g);
                            }
                        }
                        if !state.tracker.already_recovered_fec_sets[f as usize] {
                            lost = lost.wrapping_add(1);
                            proof {
                                assert(!found.contains((slot, f)));
                                found = found.insert((slot, f));
                            }
                        }
                        j = j + 1;
                    }
                    proof {
                        assert(sets@.take(j as int) =~= sets@);
                        assert forall|key: (u64, u32)| #[trigger]
                            found.contains(key) <==> keys@.take(i + 1).contains(key.0) && key.0
                                < oldest && before.is_incomplete(key) by {
                            if key.0 == slot && before.is_incomplete(key) {
                                assert(sets@.to_set().contains(key.1));
                            }
                        }
                    }
                }
                let ghost slots = self@.slots;
                let _ = table_remove(&mut self.slots, &slot);
                assert(self@.slots =~= slots.remove(slot));
            }
            i = i + 1;
        }
        proof {
            assert(keys@.take(i as int) =~= keys@);
            assert forall|slot: u64| before.slots.contains_key(slot) implies keys@.contains(
                slot,
            ) by {
                assert(keys@.to_set().contains(slot));
            }
            assert(found =~= before.lost_sets());
            assert(self@.slots =~= before.after_cleanup().slots);
        }
        lost
    }

    /// Takes in the shreds of a batch of packets, one after the other.
    pub fn ingest_batch(&mut self, shreds: Vec<Shred>)
        requires
            old(self)@.wf(),
        ensures
            final(self)@ == old(self)@.after_shreds(views_of(shreds@)),
            final(self)@.wf(),
    {
        let ghost all = views_of(shreds@);
        let ghost before = self@;
        assert(all.take(0) =~= Seq::empty());
        for shred in walk: shreds
            invariant
                views_of(walk.seq()) == all,
                self@ == before.after_shreds(all.take(walk.index())),
                self@.wf(),
        {
            proof {
                let n = walk.index();
                assert(all[n] == shred@);
                assert(all.take(n + 1).drop_last() =~= all.take(n));
            }
            self.ingest_shred(shred);
        }
        assert(all.take(all.len() as int) =~= all);
    }
}

} // verus!
