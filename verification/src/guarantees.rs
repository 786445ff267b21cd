//! What each operation does, said of the fields that it reads and writes.
use vstd::prelude::*;

use crate::entries::{entry_views, transaction_views, DecodedTransaction};
use crate::fec_set::{
    data_shred_info, data_shreds_of, code_shreds_of, expected_data_shreds,
    of_rank, recovery_rank, shred_views, views_of, with_shred,
};
use crate::laws::{
    law_due_sets_are_sent, law_pass_moves_on, law_zero_threshold_disables_inline_recovery,
};
use crate::model::{
    fec_set_wf, job_key, keys_wf, IngestView, RecoveryPlan, RoundView, SlotView, WalkView,
    MAX_PROCESSING_AGE, SLOT_LOOKBACK,
};
use crate::recovery::{recovered_shreds, JobView, ResultView};
use crate::shred::{
    same_shred, ComparableShred, Shred, ShredCodeView, ShredDataView, ShredVariant, ShredView,
    MAX_DATA_SHREDS_PER_SLOT, SIZE_OF_CODE_PAYLOAD, SIZE_OF_MERKLE_PROOF_ENTRY, SIZE_OF_SIGNATURE,
};
use crate::state::{ShredStatus, ShredsStateTracker, TrackerView};
use crate::stats::DecoderStats;
use crate::worklist::{ascending, key_lt};

verus! {

/// The limits of the protocol and of the decoder.
pub proof fn law_limits()
    ensures
        MAX_DATA_SHREDS_PER_SLOT == 32_768,
        SIZE_OF_CODE_PAYLOAD == 1_228,
        SIZE_OF_MERKLE_PROOF_ENTRY == 20,
        SIZE_OF_SIGNATURE == 64,
        SLOT_LOOKBACK == 50,
        MAX_PROCESSING_AGE == 150,
        crate::recovery::MAX_QUEUE_DEPTH == 16_777_215,
        crate::decoder::MIN_PACKET_BYTES == 64,
        crate::decoder::DEDUP_CHECK_SECONDS == 2,
        crate::model::INLINE_RECOVERY_MISSING_THRESHOLD == 0,
{
}

/// What is read of a shred is what stands in its headers.
pub proof fn law_shred_fields(code: ShredCodeView, data: ShredDataView)
    ensures
        ({
            let c = ShredView::ShredCode(code);
            let d = ShredView::ShredData(data);
            &&& c.slot() == code.common_header.slot
            &&& d.slot() == data.common_header.slot
            &&& c.index() == code.common_header.index
            &&& d.index() == data.common_header.index
            &&& c.fec_set_index() == code.common_header.fec_set_index
            &&& d.fec_set_index() == data.common_header.fec_set_index
            &&& c.payload() == code.payload
            &&& d.payload() == data.payload
            &&& c.shred_type() is Code
            &&& d.shred_type() is Data
        }),
{
}

/// A shred can be kept exactly if its two indexes lie below the number of data
/// shreds of a slot.
pub proof fn law_shreds_in_range(shred: ShredView)
    ensures
        shred.in_range() <==> shred.index() < 32_768 && shred.fec_set_index() < 32_768,
{
}

/// The value of a shred, of a list of shreds and of a slot's tables is made of
/// all that they hold.
pub proof fn law_values_leave_nothing_out(
    shred: Shred,
    shreds: Seq<Shred>,
    others: Seq<ComparableShred>,
    tracker: ShredsStateTracker,
)
    ensures
        match shred {
            Shred::ShredCode(s) => shred@ == ShredView::ShredCode(
                ShredCodeView {
                    common_header: s.common_header,
                    coding_header: s.coding_header,
                    payload: s.payload@,
                },
            ),
            Shred::ShredData(s) => {
                &&& shred@ is ShredData
                &&& shred@.common_header() == s.common_header
                &&& shred@.payload() == s.payload@
                &&& shred@->ShredData_0.data_header == s.data_header
                &&& shred@->ShredData_0.data_complete == s.data_complete
                &&& shred@->ShredData_0.last_in_slot == s.last_in_slot
                &&& s.data is None <==> shred@->ShredData_0.data is None
                &&& s.data matches Some(bytes) ==> shred@->ShredData_0.data == Some(bytes@)
            },
        },
        views_of(shreds).len() == shreds.len(),
        forall|i: int| 0 <= i < shreds.len() ==> #[trigger] views_of(shreds)[i] == shreds[i]@,
        shred_views(others).len() == others.len(),
        forall|i: int|
            0 <= i < others.len() ==> #[trigger] shred_views(others)[i] == others[i].0@,
        tracker@.data_status == tracker.data_status@,
        tracker@.already_recovered_fec_sets == tracker.already_recovered_fec_sets@,
        tracker@.already_deshredded == tracker.already_deshredded@,
        tracker@.recovery_in_flight == tracker.recovery_in_flight@,
        tracker@.data_shreds.len() == tracker.data_shreds@.len(),
        forall|i: int|
            0 <= i < tracker.data_shreds@.len() ==> match tracker.data_shreds@[i] {
                Some(s) => #[trigger] tracker@.data_shreds[i] == Some(s@),
                None => tracker@.data_shreds[i] is None,
            },
{
}

/// Two data shreds are the same exactly if they carry data, the same data, and
/// agree in every field of their headers; the rest of the payload is not
/// looked at.
pub proof fn law_when_data_shreds_are_the_same(a: ShredDataView, b: ShredDataView)
    ensures
        same_shred(ShredView::ShredData(a), ShredView::ShredData(b)) <==> {
            &&& a.data is Some
            &&& b.data is Some
            &&& a.data->0 == b.data->0
            &&& a.data_header.parent_offset == b.data_header.parent_offset
            &&& a.data_header.flags == b.data_header.flags
            &&& a.data_header.size == b.data_header.size
            &&& a.common_header.signature == b.common_header.signature
            &&& a.common_header.shred_variant == b.common_header.shred_variant
            &&& a.common_header.slot == b.common_header.slot
            &&& a.common_header.index == b.common_header.index
            &&& a.common_header.version == b.common_header.version
            &&& a.common_header.fec_set_index == b.common_header.fec_set_index
        },
{
}

/// Two coding shreds with full payloads are the same exactly if they are
/// Merkle shreds, agree in every field of their headers, and agree in every
/// byte in front of the Merkle proof and the retransmitter's signature.
pub proof fn law_when_code_shreds_are_the_same(a: ShredCodeView, b: ShredCodeView)
    requires
        a.payload.len() == 1_228,
        b.payload.len() == 1_228,
    ensures
        same_shred(ShredView::ShredCode(a), ShredView::ShredCode(b)) <==> {
            &&& a.common_header.shred_variant matches ShredVariant::MerkleCode {
                proof_size,
                chained: _,
                resigned,
            }
            &&& a.coding_header.num_data_shreds == b.coding_header.num_data_shreds
            &&& a.coding_header.num_coding_shreds == b.coding_header.num_coding_shreds
            &&& a.coding_header.position == b.coding_header.position
            &&& a.common_header.signature == b.common_header.signature
            &&& a.common_header.shred_variant == b.common_header.shred_variant
            &&& a.common_header.slot == b.common_header.slot
            &&& a.common_header.index == b.common_header.index
            &&& a.common_header.version == b.common_header.version
            &&& a.common_header.fec_set_index == b.common_header.fec_set_index
            &&& forall|i: int|
                0 <= i < 1_228 - 20 * proof_size - (if resigned {
                    64int
                } else {
                    0
                }) ==> #[trigger] a.payload[i] == b.payload[i]
        },
{
    if let ShredVariant::MerkleCode { proof_size, chained: _, resigned } =
        a.common_header.shred_variant {
        let excluded = 20 * proof_size + if resigned {
            64int
        } else {
            0
        };
        let n: nat = if excluded <= 1_228 {
            (1_228 - excluded) as nat
        } else {
            0
        };
        assert(crate::shred::comparison_len(a.common_header.shred_variant) == Some(n));
        let pa = crate::shred::prefix(a.payload, n);
        let pb = crate::shred::prefix(b.payload, n);
        assert(pa == a.payload.take(n as int));
        if forall|i: int| 0 <= i < 1_228 - excluded ==> #[trigger] a.payload[i] == b.payload[i] {
            assert(pa =~= pb);
        }
        if pa == pb {
            assert forall|i: int| 0 <= i < 1_228 - excluded implies #[trigger] a.payload[i]
                == b.payload[i] by {
                assert(pa[i] == pb[i]);
            }
        }
    }
}

/// A data shred and a coding shred are never the same.
pub proof fn law_shreds_of_two_types_differ(a: ShredCodeView, b: ShredDataView)
    ensures
        !same_shred(ShredView::ShredCode(a), ShredView::ShredData(b)),
        !same_shred(ShredView::ShredData(b), ShredView::ShredCode(a)),
{
}

/// A slot of which nothing has been seen has a place for every index, with
/// nothing in it; a decoder that has seen nothing holds none.
pub proof fn law_nothing_seen(i: int)
    requires
        0 <= i < 32_768,
    ensures
        ({
            let t = TrackerView::empty();
            &&& t.data_status.len() == 32_768
            &&& t.data_shreds.len() == 32_768
            &&& t.already_recovered_fec_sets.len() == 32_768
            &&& t.already_deshredded.len() == 32_768
            &&& t.recovery_in_flight.len() == 32_768
            &&& t.data_status[i] is Unknown
            &&& t.data_shreds[i] is None
            &&& !t.already_recovered_fec_sets[i]
            &&& !t.already_deshredded[i]
            &&& !t.recovery_in_flight[i]
        }),
        SlotView::empty().tracker == TrackerView::empty(),
        forall|f: u32| !#[trigger] SlotView::empty().fec_sets.contains_key(f),
        forall|slot: u64| !#[trigger] IngestView::empty().slots.contains_key(slot),
        IngestView::empty().highest_slot_seen == 0,
        IngestView::empty().touched.len() == 0,
        IngestView::empty().deferred.len() == 0,
        ({
            let s = IngestView::empty().stats;
            &&& s.recovered_count == 0
            &&& s.entry_count == 0
            &&& s.txn_count == 0
            &&& s.fec_recovery_error_count == 0
            &&& s.bincode_deserialize_error_count == 0
        }),
{
}

/// There is a use for a shred exactly if its erasure set is not done and, for
/// a data shred, its place is free.
pub proof fn law_when_a_shred_is_of_use(t: TrackerView, shred: ShredView)
    ensures
        t.admits(shred) <==> {
            &&& !t.already_recovered_fec_sets[shred.fec_set_index() as int]
            &&& shred is ShredCode || (t.data_shreds[shred.index() as int] is None
                && t.data_status[shred.index() as int] is Unknown)
        },
{
}

/// A data shred that is of use is put in its place when it is offered. Either
/// of its two flags makes it the end of a run, whatever the other says, and
/// without both it is not one. Nothing else changes.
pub proof fn law_data_shred_is_entered(t: TrackerView, s: ShredDataView, i: int)
    requires
        t.sized(),
        s.common_header.index < 32_768,
        s.common_header.fec_set_index < 32_768,
        !t.already_recovered_fec_sets[s.common_header.fec_set_index as int],
        t.data_shreds[s.common_header.index as int] is None,
        t.data_status[s.common_header.index as int] is Unknown,
        0 <= i < 32_768,
    ensures
        ({
            let w = t.offered(ShredView::ShredData(s));
            let at = s.common_header.index as int;
            &&& w.data_shreds[at] == Some(ShredView::ShredData(s))
            &&& s.data_complete ==> w.data_status[at] is DataComplete
            &&& s.last_in_slot ==> w.data_status[at] is DataComplete
            &&& !s.data_complete && !s.last_in_slot ==> w.data_status[at] is NotDataComplete
            &&& i != at ==> w.data_shreds[i] == t.data_shreds[i] && w.data_status[i]
                == t.data_status[i]
            &&& w.sized()
            &&& w.already_recovered_fec_sets == t.already_recovered_fec_sets
            &&& w.already_deshredded == t.already_deshredded
            &&& w.recovery_in_flight == t.recovery_in_flight
        }),
{
}

/// Entering a data shred gives its index the status that its flags say, for
/// each of the two flags whatever the other says, and leaves all else alone.
pub proof fn law_status_follows_the_flags(t: TrackerView, s: ShredDataView, i: int)
    requires
        t.sized(),
        s.common_header.index < 32_768,
        0 <= i < 32_768,
    ensures
        ({
            let w = t.recorded(ShredView::ShredData(s));
            let at = s.common_header.index as int;
            &&& w.data_shreds[at] == Some(ShredView::ShredData(s))
            &&& s.data_complete ==> w.data_status[at] is DataComplete
            &&& s.last_in_slot ==> w.data_status[at] is DataComplete
            &&& !s.data_complete && !s.last_in_slot ==> w.data_status[at] is NotDataComplete
            &&& i != at ==> w.data_shreds[i] == t.data_shreds[i] && w.data_status[i]
                == t.data_status[i]
            &&& w.already_recovered_fec_sets == t.already_recovered_fec_sets
            &&& w.already_deshredded == t.already_deshredded
            &&& w.recovery_in_flight == t.recovery_in_flight
        }),
{
}

/// A coding shred, and a shred that is of no use, change nothing in the
/// tables.
pub proof fn law_what_the_tables_do_not_show(t: TrackerView, shred: ShredView)
    requires
        shred is ShredCode || t.already_recovered_fec_sets[shred.fec_set_index() as int]
            || t.data_shreds[shred.index() as int] is Some || !(
        t.data_status[shred.index() as int] is Unknown),
    ensures
        t.offered(shred) == t,
        shred is ShredCode ==> t.recorded(shred) == t,
{
}

/// Shreds are offered one after the other, and each that is of use when its
/// turn comes counts as one.
pub proof fn law_shreds_are_offered_in_turn(t: TrackerView, shreds: Seq<ShredView>, next: ShredView)
    ensures
        t.offered_all(Seq::empty()) == t,
        t.admitted(Seq::empty()) == 0,
        t.offered_all(shreds.push(next)) == t.offered_all(shreds).offered(next),
        t.offered_all(shreds).admits(next) ==> t.admitted(shreds.push(next)) == t.admitted(shreds)
            + 1,
        !t.offered_all(shreds).admits(next) ==> t.admitted(shreds.push(next)) == t.admitted(
            shreds,
        ),
{
    assert(shreds.push(next).drop_last() =~= shreds);
}

/// The tables can be read for a shred exactly if its set index addresses them
/// and, for a data shred of a set that is not done, its index does.
pub proof fn law_when_a_shred_can_be_offered(t: TrackerView, shred: ShredView)
    ensures
        shred.fec_set_index() < 32_768 && shred.index() < 32_768 ==> t.addresses(shred),
        shred.fec_set_index() < 32_768 && shred is ShredCode ==> t.addresses(shred),
        shred.fec_set_index() < 32_768
            && t.already_recovered_fec_sets[shred.fec_set_index() as int] ==> t.addresses(shred),
        t.addresses(shred) ==> shred.fec_set_index() < 32_768,
        t.addresses(shred) && shred is ShredData && shred.index() >= 32_768
            ==> t.already_recovered_fec_sets[shred.fec_set_index() as int],
{
}

/// `start..=end` is a run that can be handed on exactly if its last place ends
/// a run, the others are filled and do not, none has been handed on, and the
/// place before it is not filled with a shred that goes on into it. How long
/// the run is and where it lies does not matter.
pub proof fn law_what_a_run_is(t: TrackerView, start: int, end: int)
    requires
        t.sized(),
        0 <= start <= end < 32_768,
    ensures
        t.whole_run(start, end) <==> {
            &&& t.data_status[end] is DataComplete
            &&& forall|j: int|
                start <= j < end ==> (#[trigger] t.data_status[j]) is NotDataComplete
            &&& forall|j: int| start <= j <= end ==> !#[trigger] t.already_deshredded[j]
            &&& start == 0 || t.data_status[start - 1] is DataComplete || t.data_status[start
                - 1] is Unknown
        },
{
    if start > 0 {
        match t.data_status[start - 1] {
            ShredStatus::Unknown => {},
            ShredStatus::NotDataComplete => {},
            ShredStatus::DataComplete => {},
        }
    }
}

/// The run around an index is the run that can be handed on which it lies in.
pub proof fn law_what_the_run_around_an_index_is(t: TrackerView, index: int, start: int, end: int)
    requires
        t.sized(),
        0 <= start <= index <= end < 32_768,
        t.data_status[end] is DataComplete,
        forall|j: int| start <= j < end ==> (#[trigger] t.data_status[j]) is NotDataComplete,
        forall|j: int| start <= j <= end ==> !#[trigger] t.already_deshredded[j],
        start == 0 || t.data_status[start - 1] is DataComplete || t.data_status[start - 1] is Unknown,
    ensures
        t.is_run(index, start, end),
        t.start_unknown(start) <==> start > 0 && t.data_status[start - 1] is Unknown,
{
}

/// Data shreds that are all here, of which only the last ends a run, and none
/// of which has been handed on, are a run of each erasure set that one of them
/// is from, if the slot or another run ends before the first.
pub proof fn law_held_shreds_are_a_run(t: TrackerView, start: int, end: int, i: int)
    requires
        t.wf(),
        0 <= start <= i <= end < 32_768,
        forall|j: int| start <= j <= end ==> (#[trigger] t.data_shreds[j]) is Some,
        forall|j: int|
            start <= j < end ==> !(#[trigger] t.data_shreds[j])->0->ShredData_0.data_complete
                && !t.data_shreds[j]->0->ShredData_0.last_in_slot,
        t.data_shreds[end]->0->ShredData_0.data_complete
            || t.data_shreds[end]->0->ShredData_0.last_in_slot,
        forall|j: int| start <= j <= end ==> !#[trigger] t.already_deshredded[j],
        start == 0 || (t.data_shreds[start - 1] matches Some(b) && (
        b->ShredData_0.data_complete || b->ShredData_0.last_in_slot)),
    ensures
        t.whole_run(start, end),
        t.run_of_set(t.data_shreds[i]->0.fec_set_index() as int, start, end),
{
    assert forall|j: int| start <= j < end implies (
    #[trigger] t.data_status[j]) is NotDataComplete by {
        assert(t.consistent_at(j));
        assert(t.data_shreds[j] is Some);
    }
    assert(t.consistent_at(end));
    assert(t.data_shreds[end] is Some);
    if start > 0 {
        assert(t.consistent_at(start - 1));
    }
    assert(t.data_shreds[i] is Some);
    assert(t.set_reaches(t.data_shreds[i]->0.fec_set_index() as int, start, end));
}

/// A run that holds the first index of an erasure set is one of that set, also
/// while nothing is known of what lies before it.
pub proof fn law_run_holds_its_sets_first_index(t: TrackerView, f: int, start: int, end: int)
    requires
        t.whole_run(start, end),
        start <= f <= end,
    ensures
        t.run_of_set(f, start, end),
{
}

/// Only shreds that are here and have not been handed on are handed on, in
/// whole runs, and for an erasure set only runs that it has to do with.
pub proof fn law_what_is_handed_on(t: TrackerView, f: int, start: int, end: int, j: int)
    requires
        t.wf(),
        t.run_of_set(f, start, end),
        start <= j <= end,
    ensures
        0 <= start <= end < 32_768,
        t.data_shreds[j] matches Some(ShredView::ShredData(s)) && s.common_header.index == j && (
        (s.data_complete || s.last_in_slot) <==> j == end),
        !t.already_deshredded[j],
        start <= f <= end || exists|i: int|
            start <= i <= end && (#[trigger] t.data_shreds[i] matches Some(s)
                && s.fec_set_index() == f),
        start > 0 && t.data_shreds[start - 1] is None ==> start <= f <= end,
        start > 0 ==> (t.data_shreds[start - 1] matches Some(ShredView::ShredData(b))
            ==> b.data_complete || b.last_in_slot),
{
    assert(t.consistent_at(j));
    if start > 0 {
        assert(t.consistent_at(start - 1));
    }
    if j < end {
        assert(t.data_status[j] is NotDataComplete);
    }
}

/// The payloads of a run are those of its shreds, in order.
pub proof fn law_payloads_are_in_order(v: IngestView, slot: u64, start: int, end: int, i: int)
    requires
        0 <= start <= i <= end,
    ensures
        v.payloads(slot, start, end).len() == end - start + 1,
        v.payloads(slot, start, end)[i - start]
            == v.slots[slot].tracker.data_shreds[i]->0.payload(),
{
}

/// A walk that begins has every run before it.
pub proof fn law_walk_begins_before_every_run(walk: WalkView, p: int, end: int)
    ensures
        walk.position == 0 && walk.index == 0 && p >= 0 && end >= 0 ==> walk.ahead(p, end),
        walk.ahead(p, end) <==> p > walk.position || (p == walk.position && end >= walk.index),
{
}

/// What a run of an erasure set is, of the slots in memory.
pub proof fn law_runs_of_slots(v: IngestView, key: (u64, u32), start: int, end: int)
    ensures
        v.run_at(key, start, end) <==> v.slots.contains_key(key.0)
            && v.slots[key.0].tracker.run_of_set(key.1 as int, start, end),
{
}

/// Shreds of a slot are taken exactly if it lies at most fifty slots behind
/// the highest seen.
pub proof fn law_which_slots_are_taken(v: IngestView, slot: u64)
    ensures
        slot >= v.oldest_slot() <==> slot + 50 >= v.highest_slot_seen,
{
}

/// Of a slot in memory, a shred is accepted exactly if the slot is recent, the
/// shred has not been handed on and is not here already, and its erasure set
/// is not done; a data shred also if the set is done and still holds shreds,
/// which a recovery would have dropped.
pub proof fn law_when_a_shred_is_accepted(v: IngestView, shred: ShredView)
    requires
        v.slots.contains_key(shred.slot()),
    ensures
        ({
            let held = v.slots[shred.slot()];
            let t = held.tracker;
            let f = shred.fec_set_index();
            let at = shred.index() as int;
            v.accepts(shred) <==> {
                &&& shred.slot() + 50 >= v.highest_slot_seen
                &&& !t.already_deshredded[at]
                &&& shred is ShredCode || (t.data_shreds[at] is None && t.data_status[at] is Unknown)
                &&& !t.already_recovered_fec_sets[f as int] || (shred is ShredData
                    && held.fec_sets.contains_key(f) && held.fec_sets[f].len() > 0)
            }
        }),
{
}

/// Of a slot that is not in memory, every shred in range is accepted if the
/// slot is recent.
pub proof fn law_first_shred_of_a_slot_is_accepted(v: IngestView, shred: ShredView)
    requires
        !v.slots.contains_key(shred.slot()),
        shred.index() < 32_768,
        shred.fec_set_index() < 32_768,
    ensures
        v.accepts(shred) <==> shred.slot() + 50 >= v.highest_slot_seen,
{
}

/// What a shred that is accepted does: its set is one to look at, the shred is
/// in its place and its set, and the highest slot is the greater of the one
/// before and its own. Nothing else changes.
pub proof fn law_accepted_shred_is_kept(
    v: IngestView,
    shred: ShredView,
    slot: u64,
    f: u32,
    i: int,
)
    requires
        v.wf(),
        shred.index() < 32_768,
        shred.fec_set_index() < 32_768,
        v.accepts(shred),
        0 <= i < 32_768,
    ensures
        ({
            let w = v.after_shred(shred);
            let mine = shred.slot();
            let set = shred.fec_set_index();
            let at = shred.index() as int;
            let a = v.slot_or_empty(mine);
            let b = w.slots[mine];
            &&& w.touched == v.touched.push((mine, set))
            &&& w.deferred == v.deferred
            &&& w.stats == v.stats
            &&& w.highest_slot_seen == if mine > v.highest_slot_seen {
                mine
            } else {
                v.highest_slot_seen
            }
            &&& w.slots.contains_key(mine)
            &&& slot != mine ==> (w.slots.contains_key(slot) <==> v.slots.contains_key(slot))
                && w.slots[slot] == v.slots[slot]
            &&& shred is ShredData ==> b.tracker.data_shreds[at] == Some(shred)
            &&& shred matches ShredView::ShredData(s) ==> if s.data_complete || s.last_in_slot {
                b.tracker.data_status[at] is DataComplete
            } else {
                b.tracker.data_status[at] is NotDataComplete
            }
            &&& shred is ShredCode || i != at ==> b.tracker.data_shreds[i]
                == a.tracker.data_shreds[i] && b.tracker.data_status[i] == a.tracker.data_status[i]
            &&& b.tracker.already_recovered_fec_sets == a.tracker.already_recovered_fec_sets
            &&& b.tracker.already_deshredded == a.tracker.already_deshredded
            &&& b.tracker.recovery_in_flight == a.tracker.recovery_in_flight
            &&& f != set ==> (b.fec_sets.contains_key(f) <==> a.fec_sets.contains_key(f)) && (
            a.fec_sets.contains_key(f) ==> b.fec_sets[f] == a.fec_sets[f])
            &&& b.fec_sets.contains_key(set)
            &&& b.fec_sets[set] == a.set_or_empty(set).push(shred) || (b.fec_sets[set]
                == a.set_or_empty(set) && exists|k: int|
                0 <= k < a.set_or_empty(set).len() && same_shred(
                    shred,
                    #[trigger] a.set_or_empty(set)[k],
                ))
        }),
{
    let mine = shred.slot();
    if v.slots.contains_key(mine) {
        assert(v.slots[mine].wf(mine));
    } else {
        crate::model::lemma_empty_slot_wf(mine);
    }
}

/// A set takes a shred unless one of its shreds is the same.
pub proof fn law_set_takes_what_is_new(set: Seq<ShredView>, shred: ShredView)
    ensures
        (exists|k: int| 0 <= k < set.len() && same_shred(shred, #[trigger] set[k])) ==> with_shred(
            set,
            shred,
        ) == set,
        (forall|k: int| 0 <= k < set.len() ==> !same_shred(shred, #[trigger] set[k]))
            ==> with_shred(set, shred) == set.push(shred),
{
}

/// What a shred that is not accepted does: nothing, but that an empty slot may
/// come into memory.
pub proof fn law_refused_shred_is_dropped(v: IngestView, shred: ShredView, slot: u64)
    requires
        shred.index() >= 32_768 || shred.fec_set_index() >= 32_768 || !v.accepts(shred),
    ensures
        ({
            let w = v.after_shred(shred);
            &&& w.touched == v.touched
            &&& w.deferred == v.deferred
            &&& w.stats == v.stats
            &&& w.highest_slot_seen == v.highest_slot_seen
            &&& v.slots.contains_key(slot) ==> w.slots.contains_key(slot) && w.slots[slot]
                == v.slots[slot]
            &&& !v.slots.contains_key(slot) && w.slots.contains_key(slot) ==> slot == shred.slot()
                && w.slots[slot] == SlotView::empty()
            &&& shred.index() >= 32_768 || shred.fec_set_index() >= 32_768 ==> w == v
        }),
{
}

/// The shreds of a batch come in one after the other, all of them.
pub proof fn law_shreds_come_in_one_after_the_other(
    v: IngestView,
    shreds: Seq<ShredView>,
    next: ShredView,
)
    ensures
        v.after_shreds(Seq::empty()) == v,
        v.after_shreds(shreds.push(next)) == v.after_shreds(shreds).after_shred(next),
{
    assert(shreds.push(next).drop_last() =~= shreds);
}

/// A shred that comes in leaves the highest slot as it was or makes it the
/// shred's own, and never lower; so one of the highest slot makes no slot too
/// old that was not.
pub proof fn law_highest_slot_is_one_that_was_seen(v: IngestView, shred: ShredView, slot: u64)
    ensures
        ({
            let w = v.after_shred(shred);
            &&& w.highest_slot_seen == v.highest_slot_seen || w.highest_slot_seen == shred.slot()
            &&& w.highest_slot_seen >= v.highest_slot_seen
            &&& shred.slot() <= v.highest_slot_seen ==> w.highest_slot_seen == v.highest_slot_seen
            &&& shred.slot() <= v.highest_slot_seen && slot + 50 >= v.highest_slot_seen
                ==> slot >= w.oldest_slot()
        }),
{
}

/// Over a batch the highest slot becomes at most the greatest of the one
/// before and the slots of the shreds in it, and is one of them.
pub proof fn law_highest_slot_over_a_batch(v: IngestView, shreds: Seq<ShredView>)
    ensures
        ({
            let high = v.after_shreds(shreds).highest_slot_seen;
            &&& high >= v.highest_slot_seen
            &&& high == v.highest_slot_seen || exists|i: int|
                0 <= i < shreds.len() && (#[trigger] shreds[i]).slot() == high
        }),
    decreases shreds.len(),
{
    if shreds.len() > 0 {
        let front = shreds.drop_last();
        let mid = v.after_shreds(front);
        law_highest_slot_over_a_batch(v, front);
        law_highest_slot_is_one_that_was_seen(mid, shreds.last(), 0);
        if mid.highest_slot_seen != v.highest_slot_seen {
            let i = choose|i: int|
                0 <= i < front.len() && (#[trigger] front[i]).slot() == mid.highest_slot_seen;
            assert(shreds[i] == front[i]);
        }
        assert(shreds[shreds.len() - 1] == shreds.last());
    }
}

/// Data shreds of one recent slot, each with an index of its own of which
/// nothing is known, of erasure sets that are not done.
pub open spec fn all_new(v: IngestView, slot: u64, shreds: Seq<ShredView>) -> bool {
    let t = v.slot_or_empty(slot).tracker;
    &&& slot + 50 >= v.highest_slot_seen
    &&& forall|i: int|
        0 <= i < shreds.len() ==> {
            &&& (#[trigger] shreds[i]) is ShredData
            &&& shreds[i].slot() == slot
            &&& shreds[i].index() < 32_768
            &&& shreds[i].fec_set_index() < 32_768
            &&& t.data_shreds[shreds[i].index() as int] is None
            &&& t.data_status[shreds[i].index() as int] is Unknown
            &&& !t.already_deshredded[shreds[i].index() as int]
            &&& !t.already_recovered_fec_sets[shreds[i].fec_set_index() as int]
        }
    &&& forall|i: int, j: int|
        0 <= i < j < shreds.len() ==> (#[trigger] shreds[i]).index() != (
        #[trigger] shreds[j]).index()
}

/// None of `shreds` has the index `x`.
pub open spec fn none_at(shreds: Seq<ShredView>, x: int) -> bool {
    forall|i: int| 0 <= i < shreds.len() ==> (#[trigger] shreds[i]).index() != x
}

/// Every shred of a batch of new data shreds is kept, however many there are
/// and in whatever order they come: it is in its place afterwards, and its set
/// is one to look at. What was there before stays.
pub proof fn law_new_shreds_are_all_kept(v: IngestView, slot: u64, shreds: Seq<ShredView>)
    requires
        v.wf(),
        all_new(v, slot, shreds),
    ensures
        v.after_shreds(shreds).wf(),
        slot + 50 >= v.after_shreds(shreds).highest_slot_seen,
        forall|i: int|
            0 <= i < shreds.len() ==> v.after_shreds(shreds).slot_or_empty(
                slot,
            ).tracker.data_shreds[shreds[i].index() as int] == Some(#[trigger] shreds[i]),
        forall|i: int|
            0 <= i < shreds.len() ==> v.after_shreds(shreds).touched.contains(
                (slot, (#[trigger] shreds[i]).fec_set_index()),
            ),
        forall|x: int|
            0 <= x < 32_768 && #[trigger] none_at(shreds, x) ==> {
                let a = v.slot_or_empty(slot).tracker;
                let b = v.after_shreds(shreds).slot_or_empty(slot).tracker;
                b.data_shreds[x] == a.data_shreds[x] && b.data_status[x] == a.data_status[x]
            },
        v.after_shreds(shreds).slot_or_empty(slot).tracker.already_deshredded == v.slot_or_empty(
            slot,
        ).tracker.already_deshredded,
        v.after_shreds(shreds).slot_or_empty(slot).tracker.already_recovered_fec_sets
            == v.slot_or_empty(slot).tracker.already_recovered_fec_sets,
        shreds.len() > 0 ==> v.after_shreds(shreds).slots.contains_key(slot),
    decreases shreds.len(),
{
    if shreds.len() > 0 {
        let front = shreds.drop_last();
        let last = shreds.last();
        assert(shreds[shreds.len() - 1] == last);
        let mid = v.after_shreds(front);
        let w = v.after_shreds(shreds);
        let a = v.slot_or_empty(slot).tracker;
        let m = mid.slot_or_empty(slot).tracker;
        let b = w.slot_or_empty(slot).tracker;
        assert(all_new(v, slot, front)) by {
            assert forall|i: int| 0 <= i < front.len() implies #[trigger] front[i] == shreds[i] by {}
        }
        law_new_shreds_are_all_kept(v, slot, front);
        assert(none_at(front, last.index() as int)) by {
            assert forall|i: int| 0 <= i < front.len() implies (#[trigger] front[i]).index()
                != last.index() by {
                assert(front[i] == shreds[i]);
            }
        }
        assert(m.data_shreds[last.index() as int] == a.data_shreds[last.index() as int]);
        if mid.slots.contains_key(slot) {
            assert(mid.slots[slot].wf(slot));
        } else {
            crate::model::lemma_empty_slot_wf(slot);
        }
        assert(mid.accepts(last));
        crate::model::law_ingest_keeps_wf(mid, last);
        law_accepted_shred_is_kept(mid, last, slot, 0, 0);
        assert forall|i: int| 0 <= i < shreds.len() implies b.data_shreds[
            shreds[i].index() as int
        ] == Some(#[trigger] shreds[i]) && w.touched.contains(
            (slot, shreds[i].fec_set_index()),
        ) by {
            let key = (slot, shreds[i].fec_set_index());
            crate::worklist::lemma_push_contains(
                mid.touched,
                (slot, last.fec_set_index()),
                key,
            );
            if i < front.len() {
                assert(front[i] == shreds[i]);
                law_accepted_shred_is_kept(mid, last, slot, 0, shreds[i].index() as int);
            }
        }
        assert forall|x: int| 0 <= x < 32_768 && #[trigger] none_at(shreds, x) implies
            b.data_shreds[x] == a.data_shreds[x] && b.data_status[x] == a.data_status[x] by {
            assert(none_at(front, x)) by {
                assert forall|i: int| 0 <= i < front.len() implies (
                #[trigger] front[i]).index() != x by {
                    assert(front[i] == shreds[i]);
                }
            }
            assert(shreds[shreds.len() - 1].index() != x);
            law_accepted_shred_is_kept(mid, last, slot, 0, x);
        }
    }
}

/// Among `shreds` is one with the index `x`, with a flag that ends a run
/// exactly if `x` is the index `end`.
pub open spec fn has_shred_at(shreds: Seq<ShredView>, x: int, end: int) -> bool {
    exists|i: int|
        0 <= i < shreds.len() && (#[trigger] shreds[i]).index() == x && ((x == end) <==> (
        shreds[i]->ShredData_0.data_complete || shreds[i]->ShredData_0.last_in_slot))
}

/// A batch of new data shreds that make up a run, from the beginning of the
/// slot or behind a run that is here, brings the run out: each of their sets
/// is one to look at, and the run is one of its runs.
pub proof fn law_batch_brings_its_run_out(
    v: IngestView,
    slot: u64,
    shreds: Seq<ShredView>,
    start: int,
    end: int,
    k: int,
)
    requires
        v.wf(),
        all_new(v, slot, shreds),
        0 <= start <= end < 32_768,
        forall|x: int| start <= x <= end ==> #[trigger] has_shred_at(shreds, x, end),
        forall|i: int| 0 <= i < shreds.len() ==> start <= (#[trigger] shreds[i]).index() <= end,
        start == 0 || v.slot_or_empty(slot).tracker.data_status[start - 1] is DataComplete,
        0 <= k < shreds.len(),
    ensures
        v.after_shreds(shreds).touched.contains((slot, shreds[k].fec_set_index())),
        v.after_shreds(shreds).run_at((slot, shreds[k].fec_set_index()), start, end),
{
    let w = v.after_shreds(shreds);
    let a = v.slot_or_empty(slot).tracker;
    let b = w.slot_or_empty(slot).tracker;
    law_new_shreds_are_all_kept(v, slot, shreds);
    assert(w.slots[slot].wf(slot));
    assert forall|x: int| start <= x <= end implies (#[trigger] b.data_shreds[x]) is Some && (x
        == end <==> (b.data_shreds[x]->0->ShredData_0.data_complete
        || b.data_shreds[x]->0->ShredData_0.last_in_slot)) by {
        assert(has_shred_at(shreds, x, end));
        let i = choose|i: int|
            0 <= i < shreds.len() && (#[trigger] shreds[i]).index() == x && ((x == end) <==> (
            shreds[i]->ShredData_0.data_complete || shreds[i]->ShredData_0.last_in_slot));
        assert(b.data_shreds[shreds[i].index() as int] == Some(shreds[i]));
    }
    assert forall|x: int| start <= x <= end implies !#[trigger] b.already_deshredded[x] by {
        assert(has_shred_at(shreds, x, end));
        let i = choose|i: int|
            0 <= i < shreds.len() && (#[trigger] shreds[i]).index() == x && ((x == end) <==> (
            shreds[i]->ShredData_0.data_complete || shreds[i]->ShredData_0.last_in_slot));
        assert(!a.already_deshredded[shreds[i].index() as int]);
    }
    if start > 0 {
        assert(none_at(shreds, start - 1));
        assert(b.data_shreds[start - 1] == a.data_shreds[start - 1]);
        assert(b.consistent_at(start - 1));
        assert(b.data_status[start - 1] is DataComplete);
    }
    assert(b.data_shreds[shreds[k].index() as int] == Some(shreds[k]));
    law_held_shreds_are_a_run(b, start, end, shreds[k].index() as int);
}

/// A slot and an erasure set that are not in memory count as empty.
pub proof fn law_what_is_not_in_memory_is_empty(v: IngestView, slot: u64, f: u32)
    ensures
        v.slots.contains_key(slot) ==> v.slot_or_empty(slot) == v.slots[slot],
        !v.slots.contains_key(slot) ==> v.slot_or_empty(slot) == SlotView::empty(),
        v.slots.contains_key(slot) && v.slots[slot].fec_sets.contains_key(f)
            ==> v.slots[slot].set_or_empty(f) == v.slots[slot].fec_sets[f],
        v.slots.contains_key(slot) && !v.slots[slot].fec_sets.contains_key(f)
            ==> v.slots[slot].set_or_empty(f).len() == 0,
{
}

/// A place of which no shred on offer is, or only such as are of sets that are
/// done, stays as it is.
proof fn lemma_place_is_left_alone(t: TrackerView, shreds: Seq<ShredView>, x: int)
    requires
        t.sized(),
        t.addresses_all(shreds),
        0 <= x < 32_768,
        forall|k: int|
            0 <= k < shreds.len() ==> !((#[trigger] shreds[k]) is ShredData && shreds[k].index()
                == x && !t.already_recovered_fec_sets[shreds[k].fec_set_index() as int]),
    ensures
        t.offered_all(shreds).data_shreds[x] == t.data_shreds[x],
        t.offered_all(shreds).data_status[x] == t.data_status[x],
    decreases shreds.len(),
{
    if shreds.len() > 0 {
        let front = shreds.drop_last();
        assert(t.addresses_all(front)) by {
            assert forall|j: int| 0 <= j < front.len() implies t.addresses(
                #[trigger] front[j],
            ) by {
                assert(front[j] == shreds[j]);
            }
        }
        assert forall|k: int| 0 <= k < front.len() implies !((#[trigger] front[k]) is ShredData
            && front[k].index() == x && !t.already_recovered_fec_sets[
            front[k].fec_set_index() as int
        ]) by {
            assert(front[k] == shreds[k]);
        }
        lemma_place_is_left_alone(t, front, x);
        crate::state::law_offering_only_adds(t, front);
        assert(shreds[shreds.len() - 1] == shreds.last());
    }
}

/// Of the data shreds on offer for a free place, the first of a set that is
/// not done fills it, with the status that its flags say.
pub proof fn law_first_shred_on_offer_fills_its_place(
    t: TrackerView,
    shreds: Seq<ShredView>,
    j: int,
)
    requires
        t.sized(),
        t.addresses_all(shreds),
        0 <= j < shreds.len(),
        shreds[j] is ShredData,
        !t.already_recovered_fec_sets[shreds[j].fec_set_index() as int],
        t.data_shreds[shreds[j].index() as int] is None,
        t.data_status[shreds[j].index() as int] is Unknown,
        forall|k: int|
            0 <= k < j ==> !((#[trigger] shreds[k]) is ShredData && shreds[k].index()
                == shreds[j].index() && !t.already_recovered_fec_sets[
                shreds[k].fec_set_index() as int
            ]),
    ensures
        ({
            let w = t.offered_all(shreds);
            let at = shreds[j].index() as int;
            let s = shreds[j]->ShredData_0;
            &&& w.data_shreds[at] == Some(shreds[j])
            &&& s.data_complete || s.last_in_slot ==> w.data_status[at] is DataComplete
            &&& !s.data_complete && !s.last_in_slot ==> w.data_status[at] is NotDataComplete
        }),
    decreases shreds.len(),
{
    let front = shreds.drop_last();
    let at = shreds[j].index() as int;
    assert(t.addresses(shreds[j]));
    assert(t.addresses_all(front)) by {
        assert forall|k: int| 0 <= k < front.len() implies t.addresses(#[trigger] front[k]) by {
            assert(front[k] == shreds[k]);
        }
    }
    crate::state::law_offering_only_adds(t, front);
    assert forall|k: int| 0 <= k < front.len() implies #[trigger] front[k] == shreds[k] by {}
    if j == shreds.len() - 1 {
        assert forall|k: int| 0 <= k < front.len() implies !((#[trigger] front[k]) is ShredData
            && front[k].index() == at && !t.already_recovered_fec_sets[
            front[k].fec_set_index() as int
        ]) by {
            assert(front[k] == shreds[k]);
        }
        lemma_place_is_left_alone(t, front, at);
    } else {
        assert(front[j] == shreds[j]);
        assert forall|k: int| 0 <= k < j implies !((#[trigger] front[k]) is ShredData
            && front[k].index() == front[j].index() && !t.already_recovered_fec_sets[
            front[k].fec_set_index() as int
        ]) by {
            assert(front[k] == shreds[k]);
        }
        law_first_shred_on_offer_fills_its_place(t, front, j);
        assert(t.addresses(shreds[shreds.len() - 1]));
    }
}

/// Data shreds for free places, one for each, of sets that are not done, are
/// all of use and all counted.
pub proof fn law_new_shreds_on_offer_all_count(t: TrackerView, shreds: Seq<ShredView>)
    requires
        t.sized(),
        forall|i: int|
            0 <= i < shreds.len() ==> {
                &&& (#[trigger] shreds[i]) is ShredData
                &&& shreds[i].index() < 32_768
                &&& shreds[i].fec_set_index() < 32_768
                &&& t.data_shreds[shreds[i].index() as int] is None
                &&& t.data_status[shreds[i].index() as int] is Unknown
                &&& !t.already_recovered_fec_sets[shreds[i].fec_set_index() as int]
            },
        forall|i: int, j: int|
            0 <= i < j < shreds.len() ==> (#[trigger] shreds[i]).index() != (
            #[trigger] shreds[j]).index(),
    ensures
        t.addresses_all(shreds),
        t.admitted(shreds) == shreds.len(),
    decreases shreds.len(),
{
    if shreds.len() > 0 {
        let front = shreds.drop_last();
        assert forall|i: int| 0 <= i < front.len() implies #[trigger] front[i] == shreds[i] by {}
        law_new_shreds_on_offer_all_count(t, front);
        assert(shreds[shreds.len() - 1] == shreds.last());
        assert forall|k: int| 0 <= k < front.len() implies !((#[trigger] front[k]) is ShredData
            && front[k].index() == shreds.last().index() && !t.already_recovered_fec_sets[
            front[k].fec_set_index() as int
        ]) by {
            assert(shreds[k].index() != shreds[shreds.len() - 1].index());
        }
        lemma_place_is_left_alone(t, front, shreds.last().index() as int);
        crate::state::law_offering_only_adds(t, front);
    }
}

/// A result for a slot in memory can be applied if its indexes lie in range,
/// and any for a slot that is not.
pub proof fn law_when_a_result_can_be_applied(v: IngestView, result: ResultView)
    ensures
        !v.slots.contains_key(result.slot) ==> v.addresses_result(result),
        result.fec_set_index < 32_768 && (forall|j: int|
            0 <= j < result.recovered.len() ==> (#[trigger] result.recovered[j]).index() < 32_768
                && result.recovered[j].fec_set_index() < 32_768) ==> v.addresses_result(result),
        v.slots.contains_key(result.slot) && v.addresses_result(result) ==> result.fec_set_index
            < 32_768,
{
    if result.fec_set_index < 32_768 && (forall|j: int|
        0 <= j < result.recovered.len() ==> (#[trigger] result.recovered[j]).index() < 32_768
            && result.recovered[j].fec_set_index() < 32_768) {
        assert forall|j: int| 0 <= j < result.recovered.len() implies v.slots[
            result.slot
        ].tracker.addresses(#[trigger] result.recovered[j]) by {}
    }
}

/// A result changes its own slot alone, and of that neither what has been
/// handed on nor any shred that is here. It ends the recovery of its own set
/// and of no other. With shreds it makes its own set done and no other, puts
/// the set's shreds away and no others, and counts the shreds that were of
/// use; without it counts a failure and leaves all sets as they are.
pub proof fn law_result_concerns_its_own_set_only(
    v: IngestView,
    result: ResultView,
    slot: u64,
    g: u32,
    i: int,
)
    requires
        v.wf(),
        v.slots.contains_key(result.slot),
        v.addresses_result(result),
        g < 32_768,
        0 <= i < 32_768,
    ensures
        ({
            let w = v.after_result(result);
            let f = result.fec_set_index;
            let a = v.slots[result.slot];
            let b = w.slots[result.slot];
            &&& w.slots.dom() == v.slots.dom()
            &&& slot != result.slot ==> w.slots[slot] == v.slots[slot]
            &&& w.highest_slot_seen == v.highest_slot_seen
            &&& w.deferred == v.deferred
            &&& b.tracker.already_deshredded == a.tracker.already_deshredded
            &&& a.tracker.data_shreds[i] is Some ==> b.tracker.data_shreds[i]
                == a.tracker.data_shreds[i] && b.tracker.data_status[i] == a.tracker.data_status[i]
            &&& g != f ==> b.tracker.already_recovered_fec_sets[g as int]
                == a.tracker.already_recovered_fec_sets[g as int]
            &&& g != f ==> b.tracker.recovery_in_flight[g as int]
                == a.tracker.recovery_in_flight[g as int]
            &&& !b.tracker.recovery_in_flight[f as int]
            &&& b.fec_sets.dom() == a.fec_sets.dom()
            &&& g != f && a.fec_sets.contains_key(g) ==> b.fec_sets[g] == a.fec_sets[g]
            &&& w.stats.entry_count == v.stats.entry_count
            &&& w.stats.txn_count == v.stats.txn_count
            &&& w.stats.bincode_deserialize_error_count == v.stats.bincode_deserialize_error_count
            &&& result.recovered.len() == 0 ==> {
                &&& w.touched == v.touched
                &&& b.fec_sets == a.fec_sets
                &&& b.tracker.already_recovered_fec_sets == a.tracker.already_recovered_fec_sets
                &&& b.tracker.data_shreds == a.tracker.data_shreds
                &&& b.tracker.data_status == a.tracker.data_status
                &&& w.stats.recovered_count == v.stats.recovered_count
                &&& v.stats.fec_recovery_error_count < u64::MAX ==> w.stats.fec_recovery_error_count
                    == v.stats.fec_recovery_error_count + 1
            }
            &&& result.recovered.len() > 0 ==> {
                &&& w.touched == v.touched.push((result.slot, f))
                &&& b.tracker.already_recovered_fec_sets[f as int]
                &&& a.fec_sets.contains_key(f) ==> b.fec_sets[f].len() == 0
                &&& b.tracker.data_shreds == a.tracker.offered_all(result.recovered).data_shreds
                &&& b.tracker.data_status == a.tracker.offered_all(result.recovered).data_status
                &&& w.stats.fec_recovery_error_count == v.stats.fec_recovery_error_count
                &&& v.stats.recovered_count + a.tracker.admitted(result.recovered) <= u64::MAX
                    ==> w.stats.recovered_count == v.stats.recovered_count + a.tracker.admitted(
                    result.recovered,
                )
            }
        }),
{
    let w = v.after_result(result);
    assert(v.slots[result.slot].wf(result.slot));
    crate::state::law_offering_only_adds(v.slots[result.slot].tracker, result.recovered);
    assert(w.slots.dom() =~= v.slots.dom());
    assert(w.slots[result.slot].fec_sets.dom() =~= v.slots[result.slot].fec_sets.dom());
}

/// A result for a slot that is not in memory changes nothing.
pub proof fn law_result_for_an_unknown_slot_is_dropped(v: IngestView, result: ResultView)
    requires
        !v.slots.contains_key(result.slot),
    ensures
        v.after_result(result) == v,
{
}

/// A shred of another set that would have been accepted before a result is
/// accepted after it, if the result has not filled its place.
pub proof fn law_result_does_not_shut_other_sets_out(
    v: IngestView,
    result: ResultView,
    shred: ShredView,
)
    requires
        v.wf(),
        v.slots.contains_key(result.slot),
        v.addresses_result(result),
        shred.index() < 32_768,
        shred.fec_set_index() < 32_768,
        (shred.slot(), shred.fec_set_index()) != (result.slot, result.fec_set_index),
        v.accepts(shred),
        shred is ShredCode || shred.slot() != result.slot || v.after_result(result).slots[
            result.slot
        ].tracker.data_shreds[shred.index() as int] is None,
    ensures
        v.after_result(result).accepts(shred),
{
    let w = v.after_result(result);
    law_result_concerns_its_own_set_only(
        v,
        result,
        shred.slot(),
        shred.fec_set_index(),
        shred.index() as int,
    );
    if shred.slot() == result.slot {
        crate::model::law_result_keeps_wf(v, result);
        assert(w.slots.contains_key(result.slot));
        assert(w.slots[result.slot].wf(result.slot));
        assert(w.slots[result.slot].tracker.consistent_at(shred.index() as int));
    }
}

/// Two recoveries of different sets of one slot do not get in each other's
/// way: a data shred that the second brings back is entered though the first
/// came before it, and filled another place.
pub proof fn law_results_of_two_sets_are_both_entered(
    v: IngestView,
    first: ResultView,
    second: ResultView,
    j: int,
)
    requires
        v.wf(),
        v.slots.contains_key(first.slot),
        first.slot == second.slot,
        first.fec_set_index != second.fec_set_index,
        v.addresses_result(first),
        v.after_result(first).addresses_result(second),
        0 <= j < second.recovered.len(),
        second.recovered[j] is ShredData,
        second.recovered[j].index() < 32_768,
        second.recovered[j].fec_set_index() == second.fec_set_index,
        !v.slots[first.slot].tracker.already_recovered_fec_sets[second.fec_set_index as int],
        v.after_result(first).slots[first.slot].tracker.data_shreds[
            second.recovered[j].index() as int
        ] is None,
        forall|k: int|
            0 <= k < j ==> (#[trigger] second.recovered[k]).index() != second.recovered[j].index(),
    ensures
        v.after_result(first).after_result(second).slots[first.slot].tracker.data_shreds[
            second.recovered[j].index() as int
        ] == Some(second.recovered[j]),
{
    let mid = v.after_result(first);
    let x = second.recovered[j].index() as int;
    law_result_concerns_its_own_set_only(v, first, first.slot, second.fec_set_index, x);
    crate::model::law_result_keeps_wf(v, first);
    assert(mid.slots.contains_key(first.slot));
    assert(mid.slots[first.slot].wf(first.slot));
    assert(mid.slots[first.slot].tracker.consistent_at(x));
    law_first_shred_on_offer_fills_its_place(mid.slots[first.slot].tracker, second.recovered, j);
    law_result_concerns_its_own_set_only(mid, second, first.slot, second.fec_set_index, x);
}

/// Results come in one after the other, all of them.
pub proof fn law_results_come_in_one_after_the_other(
    v: IngestView,
    results: Seq<ResultView>,
    next: ResultView,
)
    ensures
        v.after_results(Seq::empty()) == v,
        v.addresses_results(Seq::empty()),
        v.after_results(results.push(next)) == v.after_results(results).after_result(next),
        v.addresses_results(results.push(next)) <==> v.addresses_results(results)
            && v.after_results(results).addresses_result(next),
{
    assert(results.push(next).drop_last() =~= results);
}

/// What a recovery yields is kept in order, all but what came out unsound.
pub proof fn law_sound_shreds_are_kept(
    items: Seq<Result<Shred, String>>,
    shred: Shred,
    error: String,
)
    ensures
        recovered_shreds(Seq::empty()).len() == 0,
        recovered_shreds(items.push(Ok(shred))) == recovered_shreds(items).push(shred@),
        recovered_shreds(items.push(Err(error))) == recovered_shreds(items),
{
    assert(items.push(Ok(shred)).drop_last() =~= items);
    assert(items.push(Err(error)).drop_last() =~= items);
}

/// How many of some shreds are data shreds, or how many are not.
pub open spec fn number_of(set: Seq<ShredView>, data: bool) -> nat
    decreases set.len(),
{
    if set.len() == 0 {
        0
    } else if (set.last() is ShredData) == data {
        number_of(set.drop_last(), data) + 1
    } else {
        number_of(set.drop_last(), data)
    }
}

/// The shreds of a set are counted by type, in sixteen bits.
pub proof fn law_shreds_are_counted_by_type(set: Seq<ShredView>)
    ensures
        number_of(set, true) + number_of(set, false) == set.len(),
        data_shreds_of(set).len() == number_of(set, true),
        code_shreds_of(set).len() == number_of(set, false),
        data_shred_info(set).2 == number_of(set, true) % 65_536,
        data_shred_info(set).3 == number_of(set, false) % 65_536,
    decreases set.len(),
{
    reveal(Seq::filter);
    if set.len() > 0 {
        law_shreds_are_counted_by_type(set.drop_last());
    }
}

/// How large a set is said to be, shred by shred: a coding shred decides; a
/// data shred that ends a run is taken for the last of the set while nothing
/// else is known.
pub proof fn law_how_large_a_set_is_said_to_be(set: Seq<ShredView>, next: ShredView)
    ensures
        ({
            let before = data_shred_info(set);
            let after = data_shred_info(set.push(next));
            match next {
                ShredView::ShredCode(s) => {
                    &&& after.0 == s.coding_header.num_data_shreds
                    &&& after.1 == s.coding_header.num_coding_shreds
                },
                ShredView::ShredData(s) => {
                    &&& after.1 == before.1
                    &&& before.0 != 0 || (!s.data_complete && !s.last_in_slot) ==> after.0
                        == before.0
                    &&& before.0 == 0 && (s.data_complete || s.last_in_slot)
                        && s.common_header.fec_set_index <= s.common_header.index
                        && s.common_header.index - s.common_header.fec_set_index < 65_535
                        ==> after.0 == s.common_header.index - s.common_header.fec_set_index + 1
                },
            }
        }),
        data_shred_info(Seq::empty()).0 == 0,
        data_shred_info(Seq::empty()).1 == 0,
{
    assert(set.push(next).drop_last() =~= set);
}

/// Every coding shred of `set` says that it has `n` data shreds, and there is
/// one.
pub open spec fn said_to_have(set: Seq<ShredView>, n: u16) -> bool {
    &&& forall|i: int|
        0 <= i < set.len() ==> ((#[trigger] set[i]) matches ShredView::ShredCode(s)
            ==> s.coding_header.num_data_shreds == n)
    &&& exists|i: int| 0 <= i < set.len() && (#[trigger] set[i]) is ShredCode
}

/// Coding shreds that agree decide how many data shreds a set has.
proof fn lemma_agreed_size(set: Seq<ShredView>, n: u16)
    requires
        said_to_have(set, n),
        n > 0,
    ensures
        expected_data_shreds(set) == n,
    decreases set.len(),
{
    let front = set.drop_last();
    if set.last() is ShredData {
        let i = choose|i: int| 0 <= i < set.len() && (#[trigger] set[i]) is ShredCode;
        assert(front[i] is ShredCode);
        assert forall|k: int| 0 <= k < front.len() implies ((
        #[trigger] front[k]) matches ShredView::ShredCode(s) ==> s.coding_header.num_data_shreds
            == n) by {
            assert(front[k] == set[k]);
        }
        lemma_agreed_size(front, n);
    } else {
        assert(set[set.len() - 1] is ShredCode);
    }
}

/// A set that is neither done nor under way and whose coding shreds say that
/// it has `n` data shreds is recovered as soon as `n` shreds of it are here and
/// some of the data shreds are not, however many those are: by the workers,
/// or, up to the threshold, on the ingest thread.
pub proof fn law_set_with_enough_shreds_is_recovered(
    v: IngestView,
    key: (u64, u32),
    n: u16,
    threshold: u16,
)
    requires
        v.slots.contains_key(key.0),
        !v.slots[key.0].tracker.already_recovered_fec_sets[key.1 as int],
        !v.slots[key.0].tracker.recovery_in_flight[key.1 as int],
        v.slots[key.0].fec_sets.contains_key(key.1),
        said_to_have(v.slots[key.0].fec_sets[key.1], n),
        n > 0,
        v.slots[key.0].fec_sets[key.1].len() >= n,
        number_of(v.slots[key.0].fec_sets[key.1], true) < n,
    ensures
        !(v.plan_for(key, threshold) is Nothing),
        v.plan_for(key, 0) is Queue,
        v.plan_for(key, threshold) is Inline <==> threshold > 0 && n - number_of(
            v.slots[key.0].fec_sets[key.1],
            true,
        ) <= threshold,
{
    let set = v.slots[key.0].fec_sets[key.1];
    lemma_agreed_size(set, n);
    law_shreds_are_counted_by_type(set);
}

/// The same without coding shreds, where a data shred that ends a run is taken
/// for the last: what there is to know is how large the set is said to be.
pub proof fn law_when_a_set_is_recovered(v: IngestView, key: (u64, u32), threshold: u16)
    requires
        v.slots.contains_key(key.0),
        v.slots[key.0].fec_sets.contains_key(key.1),
        number_of(v.slots[key.0].fec_sets[key.1], true) < 65_536,
    ensures
        ({
            let t = v.slots[key.0].tracker;
            let set = v.slots[key.0].fec_sets[key.1];
            let size = data_shred_info(set).0;
            !(v.plan_for(key, threshold) is Nothing) <==> {
                &&& !t.already_recovered_fec_sets[key.1 as int]
                &&& !t.recovery_in_flight[key.1 as int]
                &&& size > 0
                &&& set.len() >= size
                &&& number_of(set, true) != size
            }
        }),
{
    law_shreds_are_counted_by_type(v.slots[key.0].fec_sets[key.1]);
}

/// Nothing is done about a set of which nothing is held.
pub proof fn law_unknown_sets_are_not_recovered(v: IngestView, key: (u64, u32), threshold: u16)
    requires
        !v.slots.contains_key(key.0) || !v.slots[key.0].fec_sets.contains_key(key.1),
    ensures
        v.plan_for(key, threshold) is Nothing,
{
}

/// How often a shred is among those of its own rank is how often it is among
/// all.
proof fn lemma_count_by_rank(shreds: Seq<ShredView>, x: ShredView)
    ensures
        of_rank(shreds, recovery_rank(x)).to_multiset().count(x) == shreds.to_multiset().count(x),
    decreases shreds.len(),
{
    broadcast use vstd::multiset::group_multiset_axioms;

    reveal(Seq::filter);
    let rank = recovery_rank(x);
    if shreds.len() == 0 {
        assert(of_rank(shreds, rank) =~= shreds);
    } else {
        let front = shreds.drop_last();
        let last = shreds.last();
        lemma_count_by_rank(front, x);
        assert(shreds =~= front.push(last));
        front.to_multiset_ensures();
        of_rank(front, rank).to_multiset_ensures();
        assert(shreds.to_multiset() =~= front.to_multiset().insert(last));
        if recovery_rank(last) == rank {
            assert(of_rank(shreds, rank) =~= of_rank(front, rank).push(last));
        } else {
            assert(of_rank(shreds, rank) =~= of_rank(front, rank));
            assert(last != x);
        }
    }
}

/// The job of a set is for its slot and index, and holds all the shreds held
/// of the set, each as often, and no others: data shreds first, and each type
/// by index.
pub proof fn law_what_a_job_holds(v: IngestView, key: (u64, u32), job: JobView, i: int, j: int)
    requires
        v.is_job(key, job),
    ensures
        job.slot == key.0,
        job.fec_set_index == key.1,
        job.shreds.to_multiset() == v.slots[key.0].fec_sets[key.1].to_multiset(),
        job.shreds.len() == v.slots[key.0].fec_sets[key.1].len(),
        0 <= i < j < job.shreds.len() && job.shreds[i] is ShredCode ==> job.shreds[j] is ShredCode,
        0 <= i < j < job.shreds.len() && (job.shreds[i] is ShredCode <==> job.shreds[j] is ShredCode)
            ==> job.shreds[i].index() <= job.shreds[j].index(),
{
    let before = v.slots[key.0].fec_sets[key.1];
    let after = job.shreds;
    before.to_multiset_ensures();
    after.to_multiset_ensures();
    assert(after.to_multiset() =~= before.to_multiset()) by {
        assert forall|x: ShredView| #[trigger] after.to_multiset().count(x)
            == before.to_multiset().count(x) by {
            lemma_count_by_rank(after, x);
            lemma_count_by_rank(before, x);
            assert(of_rank(after, recovery_rank(x)) == of_rank(before, recovery_rank(x)));
        }
    }
    if 0 <= i < j < after.len() {
        crate::laws::law_recovery_order(before, after, i, j);
    }
}

/// A set that can and needs to be recovered, and that a pass goes over, has a
/// job with all its shreds offered to the workers in it, if they turned none
/// away.
pub proof fn law_set_with_enough_shreds_is_sent(
    v: IngestView,
    round: RoundView,
    sends: Seq<(JobView, bool)>,
    i: int,
    n: u16,
)
    requires
        v.wf(),
        keys_wf(round.work),
        ascending(round.work),
        round.next <= i < round.work.len(),
        !round.pool_full,
        v.makes_sends(round, 0, sends),
        forall|j: int| 0 <= j < sends.len() ==> (#[trigger] sends[j]).1,
        v.slots.contains_key(round.work[i].0),
        !v.slots[round.work[i].0].tracker.already_recovered_fec_sets[round.work[i].1 as int],
        !v.slots[round.work[i].0].tracker.recovery_in_flight[round.work[i].1 as int],
        v.slots[round.work[i].0].fec_sets.contains_key(round.work[i].1),
        said_to_have(v.slots[round.work[i].0].fec_sets[round.work[i].1], n),
        n > 0,
        v.slots[round.work[i].0].fec_sets[round.work[i].1].len() >= n,
        number_of(v.slots[round.work[i].0].fec_sets[round.work[i].1], true) < n,
    ensures
        exists|j: int|
            0 <= j < sends.len() && (#[trigger] sends[j]).0.slot == round.work[i].0
                && sends[j].0.fec_set_index == round.work[i].1
                && sends[j].0.shreds.to_multiset() == v.slots[round.work[i].0].fec_sets[
                round.work[i].1
            ].to_multiset(),
{
    let key = round.work[i];
    law_set_with_enough_shreds_is_recovered(v, key, n, 0);
    law_zero_threshold_disables_inline_recovery(v, key, round, sends);
    law_pass_moves_on(v, round, 0, sends);
    law_due_sets_are_sent(v, round, 0, sends, i);
    let j = choose|j: int|
        0 <= j < sends.len() && job_key((#[trigger] sends[j]).0) == key && v.is_job(
            key,
            sends[j].0,
        );
    law_what_a_job_holds(v, key, sends[j].0, 0, 0);
}

/// What waits for the next pass waited before or was to be handed to the
/// workers.
pub proof fn law_only_due_sets_wait(
    v: IngestView,
    round: RoundView,
    threshold: u16,
    sends: Seq<(JobView, bool)>,
    key: (u64, u32),
)
    requires
        v.wf(),
        keys_wf(round.work),
        v.dispatched(round, threshold, sends).0.deferred.contains(key),
    ensures
        v.deferred.contains(key) || exists|i: int|
            round.next <= i < round.work.len() && #[trigger] round.work[i] == key,
    decreases round.work.len() - round.next,
{
    if round.next < round.work.len() {
        let k = round.work[round.next as int];
        match v.plan_for(k, threshold) {
            RecoveryPlan::Nothing => {
                law_only_due_sets_wait(v, round.step(), threshold, sends, key);
            },
            RecoveryPlan::Inline => {},
            RecoveryPlan::Queue => {
                let taken = round.takes(sends);
                let w = v.after_send(k, taken);
                crate::model::law_send_keeps_wf(v, k, taken);
                law_only_due_sets_wait(
                    w,
                    round.after_offer(sends),
                    threshold,
                    round.sends_left(sends),
                    key,
                );
                crate::worklist::lemma_push_contains(v.deferred, k, key);
                if key == k {
                    assert(round.work[round.next as int] == key);
                }
            },
        }
    }
}

/// What handing on the shreds `start..=end` of a slot does: it marks these
/// shreds and no others, and makes no set done that has no data shred among
/// them. No shred is moved or dropped, no recovery ends, and other slots stay
/// as they are.
pub proof fn law_handing_on_concerns_its_own_shreds_only(
    v: IngestView,
    slot: u64,
    start: int,
    end: int,
    other: u64,
    f: u32,
    i: int,
)
    requires
        v.wf(),
        v.slots.contains_key(slot),
        0 <= start,
        f < 32_768,
        0 <= i < 32_768,
    ensures
        ({
            let w = v.after_handing_on(slot, start, end);
            let a = v.slots[slot].tracker;
            let b = w.slots[slot].tracker;
            &&& w.slots.dom() == v.slots.dom()
            &&& other != slot ==> w.slots[other] == v.slots[other]
            &&& w.touched == v.touched
            &&& w.deferred == v.deferred
            &&& w.stats == v.stats
            &&& w.highest_slot_seen == v.highest_slot_seen
            &&& w.slots[slot].fec_sets == v.slots[slot].fec_sets
            &&& b.data_shreds == a.data_shreds
            &&& b.data_status == a.data_status
            &&& b.recovery_in_flight == a.recovery_in_flight
            &&& b.already_deshredded[i] <==> a.already_deshredded[i] || start <= i <= end
            &&& a.already_recovered_fec_sets[f as int] ==> b.already_recovered_fec_sets[f as int]
            &&& (forall|j: int|
                start <= j <= end && 0 <= j < 32_768 ==> !(
                #[trigger] a.data_shreds[j] matches Some(s) && s.fec_set_index() == f))
                ==> b.already_recovered_fec_sets[f as int] == a.already_recovered_fec_sets[f as int]
        }),
{
    let w = v.after_handing_on(slot, start, end);
    assert(v.slots[slot].wf(slot));
    assert(w.slots.dom() =~= v.slots.dom());
    let a = v.slots[slot].tracker;
    if (forall|j: int|
        start <= j <= end && 0 <= j < 32_768 ==> !(#[trigger] a.data_shreds[j] matches Some(s)
            && s.fec_set_index() == f)) && a.set_reaches(f as int, start, end) {
        let j = choose|j: int|
            start <= j <= end && j < a.data_shreds.len() && (
            #[trigger] a.data_shreds[j] matches Some(s) && s.fec_set_index() == f);
        assert(!(a.data_shreds[j] matches Some(s) && s.fec_set_index() == f));
    }
}

/// Handing on shreds shuts nothing else out: a shred outside them that would
/// have been accepted still is, if no shred that was handed on is of its set.
/// So the next set of a slot comes in though nothing of it was here before.
pub proof fn law_handing_on_does_not_shut_other_sets_out(
    v: IngestView,
    slot: u64,
    start: int,
    end: int,
    shred: ShredView,
)
    requires
        v.wf(),
        v.slots.contains_key(slot),
        0 <= start,
        shred.index() < 32_768,
        shred.fec_set_index() < 32_768,
        v.accepts(shred),
        shred.slot() != slot || !(start <= shred.index() <= end),
        shred.slot() != slot || forall|j: int|
            start <= j <= end && 0 <= j < 32_768 ==> !(
            #[trigger] v.slots[slot].tracker.data_shreds[j] matches Some(s) && s.fec_set_index()
                == shred.fec_set_index()),
    ensures
        v.after_handing_on(slot, start, end).accepts(shred),
{
    law_handing_on_concerns_its_own_shreds_only(
        v,
        slot,
        start,
        end,
        shred.slot(),
        shred.fec_set_index(),
        shred.index() as int,
    );
}

/// A set of which a data shred was handed on is done, if every data shred held
/// of it has been handed on and every one that a coding shred held of it says
/// it has; otherwise it stays as it was.
pub proof fn law_when_handing_on_ends_the_work_on_a_set(
    v: IngestView,
    slot: u64,
    start: int,
    end: int,
    f: u32,
    j: int,
)
    requires
        v.wf(),
        v.slots.contains_key(slot),
        0 <= start <= j <= end,
        j < 32_768,
        f < 32_768,
        v.slots[slot].tracker.data_shreds[j] matches Some(s) && s.fec_set_index() == f,
        v.slots[slot].fec_sets.contains_key(f),
        !v.slots[slot].tracker.already_recovered_fec_sets[f as int],
    ensures
        ({
            let w = v.after_handing_on(slot, start, end);
            let set = v.slots[slot].fec_sets[f];
            w.slots[slot].tracker.already_recovered_fec_sets[f as int] <==> forall|k: int|
                0 <= k < set.len() ==> match #[trigger] set[k] {
                    ShredView::ShredData(s) =>
                        w.slots[slot].tracker.already_deshredded[s.common_header.index as int],
                    ShredView::ShredCode(s) => forall|x: int|
                        f <= x < f + s.coding_header.num_data_shreds && x < 32_768
                            ==> #[trigger] w.slots[slot].tracker.already_deshredded[x],
                }
        }),
{
    let held = v.slots[slot];
    let w = v.after_handing_on(slot, start, end);
    let set = held.fec_sets[f];
    let b = w.slots[slot].tracker;
    let marked = SlotView { tracker: held.tracker.with_deshredded(start, end), ..held };
    assert(held.wf(slot));
    assert(fec_set_wf(slot, f, set));
    assert(held.tracker.set_reaches(f as int, start, end));
    assert(b.already_deshredded == marked.tracker.already_deshredded);
    assert(set == marked.set_or_empty(f));
    assert(b.already_recovered_fec_sets[f as int] == !marked.awaits_more(f));
    assert forall|k: int| 0 <= k < set.len() implies (marked.tracker.speaks_of_more(
        #[trigger] set[k],
    ) <==> !match set[k] {
        ShredView::ShredData(s) => b.already_deshredded[s.common_header.index as int],
        ShredView::ShredCode(s) => forall|x: int|
            f <= x < f + s.coding_header.num_data_shreds && x < 32_768
                ==> #[trigger] b.already_deshredded[x],
    }) by {
        assert(set[k].fec_set_index() == f);
    }
    if marked.awaits_more(f) {
        let k = choose|k: int|
            0 <= k < marked.set_or_empty(f).len() && marked.tracker.speaks_of_more(
                #[trigger] marked.set_or_empty(f)[k],
            );
        assert(marked.tracker.speaks_of_more(set[k]));
    } else {
        assert forall|k: int| 0 <= k < set.len() implies !marked.tracker.speaks_of_more(
            #[trigger] set[k],
        ) by {
            assert(!marked.tracker.speaks_of_more(marked.set_or_empty(f)[k]));
        }
    }
}

/// A walk hands on nothing but runs of touched sets whose payloads decode.
pub proof fn law_only_runs_are_handed_on(
    v: IngestView,
    walk: WalkView,
    decodes: spec_fn(Seq<Seq<u8>>) -> bool,
    i: int,
)
    requires
        v.wf(),
        0 <= i < v.emitted(walk, decodes).1.len(),
    ensures
        ({
            let (slot, start, end) = v.emitted(walk, decodes).1[i];
            &&& decodes(v.payloads(slot, start, end))
            &&& exists|p: int|
                0 <= p < v.touched.len() && (#[trigger] v.touched[p]).0 == slot && v.run_at(
                    v.touched[p],
                    start,
                    end,
                )
        }),
    decreases v.touched.len() - walk.position, MAX_DATA_SHREDS_PER_SLOT - walk.index,
{
    let on = WalkView { index: walk.index + 1, ..walk };
    let at = walk.index as int;
    if walk.position >= v.touched.len() {
    } else if walk.index >= MAX_DATA_SHREDS_PER_SLOT {
        law_only_runs_are_handed_on(
            v,
            (WalkView { position: walk.position + 1, index: 0 }),
            decodes,
            i,
        );
    } else {
        let key = v.touched[walk.position as int];
        let s0 = choose|s: int| #[trigger] v.run_at(key, s, at);
        if v.run_ends(key, at) && decodes(v.payloads(key.0, s0, at)) {
            let u = v.after_handing_on(key.0, s0, at);
            let runs = u.emitted(on, decodes).1;
            assert(v.emitted(walk, decodes).1 == seq![(key.0, s0, at)] + runs);
            crate::model::law_handing_on_keeps_wf(v, key.0, s0, at);
            if i == 0 {
                assert(v.touched[walk.position as int].0 == key.0);
            } else {
                law_only_runs_are_handed_on(u, on, decodes, i - 1);
                let (slot, start, end) = runs[i - 1];
                let p = choose|p: int|
                    0 <= p < u.touched.len() && (#[trigger] u.touched[p]).0 == slot && u.run_at(
                        u.touched[p],
                        start,
                        end,
                    );
                crate::laws::law_handing_on_adds_no_run(
                    v,
                    key.0,
                    s0,
                    at,
                    u.touched[p],
                    start,
                    end,
                );
                assert(v.touched[p].0 == slot);
            }
        } else {
            law_only_runs_are_handed_on(v, on, decodes, i);
        }
    }
}

/// No two runs that a walk hands on have a shred in common.
pub proof fn law_no_shred_is_in_two_runs(
    v: IngestView,
    walk: WalkView,
    decodes: spec_fn(Seq<Seq<u8>>) -> bool,
    i: int,
    j: int,
)
    requires
        v.wf(),
        0 <= i < j < v.emitted(walk, decodes).1.len(),
    ensures
        ({
            let a = v.emitted(walk, decodes).1[i];
            let b = v.emitted(walk, decodes).1[j];
            a.0 != b.0 || a.2 < b.1 || b.2 < a.1
        }),
    decreases v.touched.len() - walk.position, MAX_DATA_SHREDS_PER_SLOT - walk.index,
{
    let on = WalkView { index: walk.index + 1, ..walk };
    let at = walk.index as int;
    if walk.position >= v.touched.len() {
    } else if walk.index >= MAX_DATA_SHREDS_PER_SLOT {
        law_no_shred_is_in_two_runs(
            v,
            (WalkView { position: walk.position + 1, index: 0 }),
            decodes,
            i,
            j,
        );
    } else {
        let key = v.touched[walk.position as int];
        let s0 = choose|s: int| #[trigger] v.run_at(key, s, at);
        if v.run_ends(key, at) && decodes(v.payloads(key.0, s0, at)) {
            let u = v.after_handing_on(key.0, s0, at);
            let runs = u.emitted(on, decodes).1;
            assert(v.emitted(walk, decodes).1 == seq![(key.0, s0, at)] + runs);
            crate::model::law_handing_on_keeps_wf(v, key.0, s0, at);
            if i == 0 {
                assert(v.run_at(key, s0, at));
                law_only_runs_are_handed_on(u, on, decodes, j - 1);
                let (slot, start, end) = runs[j - 1];
                let p = choose|p: int|
                    0 <= p < u.touched.len() && (#[trigger] u.touched[p]).0 == slot && u.run_at(
                        u.touched[p],
                        start,
                        end,
                    );
                if slot == key.0 {
                    crate::laws::law_shreds_are_handed_on_once(v, slot, s0, at, start, end);
                }
            } else {
                law_no_shred_is_in_two_runs(u, on, decodes, i - 1, j - 1);
            }
        } else {
            law_no_shred_is_in_two_runs(v, on, decodes, i, j);
        }
    }
}

/// Old slots are dropped exactly if more than a hundred and fifty are in
/// memory: those more than fifty behind the highest. The others stay as they
/// are.
pub proof fn law_which_slots_are_dropped(v: IngestView, slot: u64)
    ensures
        ({
            let w = v.after_cleanup();
            &&& v.slots.dom().len() <= 150 ==> w == v
            &&& v.slots.dom().len() > 150 ==> (w.slots.contains_key(slot)
                <==> v.slots.contains_key(slot) && slot + 50 >= v.highest_slot_seen)
            &&& w.slots.contains_key(slot) ==> w.slots[slot] == v.slots[slot]
            &&& w.highest_slot_seen == v.highest_slot_seen
            &&& w.touched == v.touched
            &&& w.deferred == v.deferred
            &&& w.stats == v.stats
        }),
{
}

/// The erasure sets that are lost with old slots are those held that are not
/// done.
pub proof fn law_which_sets_are_lost(v: IngestView, key: (u64, u32))
    ensures
        v.lost_sets().contains(key) <==> {
            &&& v.slots.dom().len() > 150
            &&& key.0 + 50 < v.highest_slot_seen
            &&& v.slots.contains_key(key.0)
            &&& v.slots[key.0].fec_sets.contains_key(key.1)
            &&& !v.slots[key.0].tracker.already_recovered_fec_sets[key.1 as int]
        },
{
}

/// Counters count: each kind of event raises its own counter, by as much as
/// there was, and no other.
pub proof fn law_counters_count(s: DecoderStats, n: nat, m: nat)
    ensures
        ({
            let w = s.with_recovered(n);
            &&& s.recovered_count + n <= u64::MAX ==> w.recovered_count == s.recovered_count + n
            &&& w.entry_count == s.entry_count
            &&& w.txn_count == s.txn_count
            &&& w.fec_recovery_error_count == s.fec_recovery_error_count
            &&& w.bincode_deserialize_error_count == s.bincode_deserialize_error_count
        }),
        ({
            let w = s.with_recovery_error();
            &&& s.fec_recovery_error_count < u64::MAX ==> w.fec_recovery_error_count
                == s.fec_recovery_error_count + 1
            &&& w.recovered_count == s.recovered_count
            &&& w.entry_count == s.entry_count
            &&& w.txn_count == s.txn_count
            &&& w.bincode_deserialize_error_count == s.bincode_deserialize_error_count
        }),
        ({
            let w = s.with_decode_error();
            &&& s.bincode_deserialize_error_count < u64::MAX ==> w.bincode_deserialize_error_count
                == s.bincode_deserialize_error_count + 1
            &&& w.recovered_count == s.recovered_count
            &&& w.entry_count == s.entry_count
            &&& w.txn_count == s.txn_count
            &&& w.fec_recovery_error_count == s.fec_recovery_error_count
        }),
        ({
            let w = s.with_entries(n, m);
            &&& s.entry_count + n <= u64::MAX ==> w.entry_count == s.entry_count + n
            &&& s.txn_count + m <= u64::MAX ==> w.txn_count == s.txn_count + m
            &&& w.recovered_count == s.recovered_count
            &&& w.fec_recovery_error_count == s.fec_recovery_error_count
            &&& w.bincode_deserialize_error_count == s.bincode_deserialize_error_count
        }),
{
}

/// A counter goes round: it is right up to multiples of what it can hold.
pub proof fn law_counters_go_round(count: u64, n: nat)
    ensures
        count + n < 0x1_0000_0000_0000_0000 ==> crate::stats::counted(count, n) == count + n,
        0x1_0000_0000_0000_0000 <= count + n < 0x2_0000_0000_0000_0000 ==> crate::stats::counted(
            count,
            n,
        ) == count + n - 0x1_0000_0000_0000_0000,
{
}

/// Numbers of threads are what is asked for, and one where none is; the queues
/// have room for four messages for each worker.
pub proof fn law_numbers_of_threads(n: nat)
    ensures
        crate::builder::one_or_more(0) == 1,
        n >= 1 ==> crate::builder::one_or_more(n) == n,
        crate::recovery::worker_count(0) == 1,
        n >= 1 ==> crate::recovery::worker_count(n) == n,
        crate::recovery::queue_depth(0) == 4,
        n >= 1 ==> crate::recovery::queue_depth(n) == 4 * n,
{
}

/// What is told of errors holds all that they carry.
pub proof fn law_error_texts(
    addr: String,
    error: std::io::Error,
    message: String,
    source: Seq<char>,
)
    ensures
        (crate::types::DecoderError::Bind { addr, source: error }).text(source)
            == "failed to bind UDP socket on "@ + addr@ + ": "@ + source,
        crate::types::DecoderError::Io(error).text(source) == "io error: "@ + source,
        crate::types::DecoderError::Other(message).text(source) == "other: "@ + message@,
{
}

/// The value of decoded entries holds their transactions in order, each with
/// all its signatures.
pub proof fn law_decoded_values_leave_nothing_out(
    transactions: Seq<DecodedTransaction>,
    entries: Seq<Vec<DecodedTransaction>>,
)
    ensures
        transaction_views(transactions).len() == transactions.len(),
        forall|i: int|
            0 <= i < transactions.len() ==> (#[trigger] transaction_views(transactions)[i]).signatures
                == transactions[i].signatures@ && transaction_views(transactions)[i].transaction
                == transactions[i].transaction,
        entry_views(entries).len() == entries.len(),
        forall|i: int|
            0 <= i < entries.len() ==> #[trigger] entry_views(entries)[i] == transaction_views(
                entries[i]@,
            ),
{
}

/// Erasure sets are ordered by their slots and then by their indexes, and a
/// list of them ascends if each is less than every one behind it.
pub proof fn law_order_of_sets(a: (u64, u32), b: (u64, u32), keys: Seq<(u64, u32)>)
    ensures
        key_lt(a, b) <==> a.0 < b.0 || (a.0 == b.0 && a.1 < b.1),
        ascending(keys) <==> forall|i: int, j: int|
            0 <= i < j < keys.len() ==> (#[trigger] keys[i]).0 < (#[trigger] keys[j]).0 || (
            keys[i].0 == keys[j].0 && keys[i].1 < keys[j].1),
        keys_wf(keys) <==> forall|i: int|
            0 <= i < keys.len() ==> (#[trigger] keys[i]).1 < 32_768,
{
    if ascending(keys) {
        assert forall|i: int, j: int| 0 <= i < j < keys.len() implies (#[trigger] keys[i]).0 < (
        #[trigger] keys[j]).0 || (keys[i].0 == keys[j].0 && keys[i].1 < keys[j].1) by {
            assert(key_lt(keys[i], keys[j]));
        }
    }
}

/// The ingest thread stops at once when it is told to, and when no packets
/// will come any more, and for no other reason.
pub proof fn law_when_the_thread_stops(step: crate::decoder::TickStep, halt: bool)
    ensures
        crate::decoder::step_after(step, halt) is Stop <==> step is Stop || (halt && (
        step is CheckExit || step is AwaitEvent)),
{
}

/// What is known of a set and of a queue is read off the tables.
pub proof fn law_what_is_under_way(v: IngestView, key: (u64, u32), job: JobView)
    ensures
        v.in_flight(key) <==> v.slots.contains_key(key.0) && key.1 < 32_768
            && v.slots[key.0].tracker.recovery_in_flight[key.1 as int],
        job_key(job) == (job.slot, job.fec_set_index),
        v.is_job(key, job) ==> job_key(job) == key,
{
}

/// What comes of offering a job: one that was taken makes the recovery of its
/// set one that is under way, and no other; one that was turned away makes its
/// set wait. Nothing else changes.
pub proof fn law_what_comes_of_an_offer(v: IngestView, key: (u64, u32), slot: u64, f: u32)
    requires
        v.wf(),
        key.1 < 32_768,
        f < 32_768,
    ensures
        ({
            let w = v.after_send(key, false);
            &&& w.deferred == v.deferred.push(key)
            &&& w.slots == v.slots
            &&& w.touched == v.touched
            &&& w.stats == v.stats
            &&& w.highest_slot_seen == v.highest_slot_seen
        }),
        ({
            let w = v.after_send(key, true);
            &&& w.deferred == v.deferred
            &&& w.touched == v.touched
            &&& w.stats == v.stats
            &&& w.highest_slot_seen == v.highest_slot_seen
            &&& w.slots.dom() == v.slots.dom()
            &&& v.slots.contains_key(slot) ==> {
                let a = v.slots[slot];
                let b = w.slots[slot];
                &&& b.fec_sets == a.fec_sets
                &&& b.tracker.data_status == a.tracker.data_status
                &&& b.tracker.data_shreds == a.tracker.data_shreds
                &&& b.tracker.already_recovered_fec_sets == a.tracker.already_recovered_fec_sets
                &&& b.tracker.already_deshredded == a.tracker.already_deshredded
                &&& b.tracker.recovery_in_flight[f as int] <==> (slot, f) == key
                    || a.tracker.recovery_in_flight[f as int]
            }
        }),
{
    if v.slots.contains_key(slot) {
        assert(v.slots[slot].wf(slot));
    }
    assert(v.after_send(key, true).slots.dom() =~= v.slots.dom());
}

/// The settings of a new builder.
pub proof fn law_default_settings<A, H: crate::types::ShredHandler>()
    ensures
        ({
            let d = crate::builder::BuilderView::<A, H>::defaults();
            &&& d.bind is None
            &&& d.handler is None
            &&& d.receive_threads == 4
            &&& d.recovery_workers == 8
            &&& d.recv_buffer_bytes == 262_144
        }),
{
}

/// The payloads of a segment are byte strings in order, and what was received
/// is told as it is.
pub proof fn law_values_of_segments_and_results(
    segment: crate::decoder::Segment<'_>,
    result: crate::recovery::RecoveryResult,
)
    ensures
        segment.payload_bytes().len() == segment.payloads@.len(),
        forall|i: int|
            0 <= i < segment.payloads@.len() ==> #[trigger] segment.payload_bytes()[i]
                == segment.payloads@[i]@,
        crate::recovery::received_view(None) is None,
        crate::recovery::received_view(Some(result)) == Some(result@),
        result@.slot == result.slot,
        result@.fec_set_index == result.fec_set_index,
        result@.recovered == views_of(result.recovered@),
{
}

} // verus!
