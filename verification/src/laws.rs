//! What holds of the decoder whatever comes in: laws over several operations.
use vstd::prelude::*;

use crate::fec_set::{
    code_shreds_of, data_shred_info, data_shreds_of, expected_coding_shreds, expected_data_shreds,
    in_recovery_order, recovery_rank, span_to,
};
use crate::model::{
    fec_set_wf, job_key, keys_wf, law_ingest_keeps_wf, law_result_keeps_wf, law_send_keeps_wf,
    recoverable, IngestView, RecoveryPlan, RoundView, SlotView, WalkView,
};
use crate::recovery::{JobView, ResultView};
use crate::shred::{ShredView, MAX_DATA_SHREDS_PER_SLOT};
use crate::state::TrackerView;
use crate::worklist::ascending;

verus! {

/// A shred is handed on once: no run that can be handed on after
/// `start..=end` has been contains any index of it.
pub proof fn law_shreds_are_handed_on_once(
    v: IngestView,
    slot: u64,
    start: int,
    end: int,
    s: int,
    e: int,
)
    requires
        v.wf(),
        v.slots.contains_key(slot),
        start <= end,
        v.after_handing_on(slot, start, end).slots[slot].tracker.whole_run(s, e),
    ensures
        e < start || end < s,
{
    assert(v.slots[slot].wf(slot));
    if start <= e && s <= end {
        let i = if s < start {
            start
        } else {
            s
        };
        assert(v.after_handing_on(slot, start, end).slots[slot].tracker.already_deshredded[i]);
    }
}

/// Handing on shreds brings no run about: one that can be handed on
/// afterwards could be before, with the same payloads.
pub proof fn law_handing_on_adds_no_run(
    v: IngestView,
    slot: u64,
    start: int,
    end: int,
    key: (u64, u32),
    s: int,
    e: int,
)
    requires
        v.wf(),
        v.after_handing_on(slot, start, end).run_at(key, s, e),
    ensures
        v.run_at(key, s, e),
        v.after_handing_on(slot, start, end).payloads(key.0, s, e) == v.payloads(key.0, s, e),
{
    let w = v.after_handing_on(slot, start, end);
    assert(v.slots[key.0].wf(key.0));
    let a = v.slots[key.0].tracker;
    let b = w.slots[key.0].tracker;
    assert(a.data_status == b.data_status && a.data_shreds == b.data_shreds);
    assert forall|j: int| s <= j <= e implies !#[trigger] a.already_deshredded[j] by {
        assert(!b.already_deshredded[j]);
    }
    assert(a.whole_run(s, e));
    if b.set_reaches(key.1 as int, s, e) {
        let i = choose|i: int|
            s <= i <= e && i < b.data_shreds.len() && (#[trigger] b.data_shreds[i] matches Some(x)
                && x.fec_set_index() == key.1);
        assert(a.data_shreds[i] == b.data_shreds[i]);
        assert(a.set_reaches(key.1 as int, s, e));
    }
    assert(w.payloads(key.0, s, e) =~= v.payloads(key.0, s, e));
}

/// The rest of an erasure set is taken after shreds of it have been handed
/// on: a data shred that was of use before, and is not among them, still is.
pub proof fn law_rest_of_a_set_is_taken(
    v: IngestView,
    slot: u64,
    start: int,
    end: int,
    shred: ShredView,
)
    requires
        v.wf(),
        v.accepts(shred),
        shred.in_range(),
        shred is ShredData,
        !(shred.slot() == slot && start <= shred.index() <= end),
        v.slot_or_empty(shred.slot()).set_or_empty(shred.fec_set_index()).len() > 0,
    ensures
        v.after_handing_on(slot, start, end).accepts(shred),
{
    assert(v.slots[shred.slot()].wf(shred.slot()));
}

/// An erasure set stays open after shreds of it have been handed on, for what
/// a recovery brings back too, while a coding shred held of it speaks of a
/// data shred that has not been.
pub proof fn law_awaiting_set_stays_open(
    v: IngestView,
    slot: u64,
    start: int,
    end: int,
    f: u32,
    k: int,
    i: int,
)
    requires
        v.wf(),
        v.slots.contains_key(slot),
        f < MAX_DATA_SHREDS_PER_SLOT,
        !v.slots[slot].tracker.already_recovered_fec_sets[f as int],
        0 <= k < v.slots[slot].set_or_empty(f).len(),
        v.slots[slot].set_or_empty(f)[k] matches ShredView::ShredCode(c) && f <= i < f
            + c.coding_header.num_data_shreds,
        i < MAX_DATA_SHREDS_PER_SLOT,
        !v.slots[slot].tracker.already_deshredded[i],
        !(start <= i <= end),
    ensures
        !v.after_handing_on(slot, start, end).slots[slot].tracker.already_recovered_fec_sets[
            f as int
        ],
{
    let held = v.slots[slot];
    let marked = SlotView { tracker: held.tracker.with_deshredded(start, end), ..held };
    assert(held.wf(slot));
    assert(held.fec_sets.contains_key(f));
    assert(fec_set_wf(slot, f, held.fec_sets[f]));
    assert(!marked.tracker.already_deshredded[i]);
    assert(marked.tracker.speaks_of_more(marked.set_or_empty(f)[k]));
    assert(marked.awaits_more(f));
}

/// The tables `b` are the tables `a` with more in them: what was handed on or
/// done in `a` still is, and no shred was lost or replaced.
pub open spec fn extends(a: TrackerView, b: TrackerView) -> bool {
    &&& b.sized()
    &&& forall|i: int|
        0 <= i < MAX_DATA_SHREDS_PER_SLOT && a.already_deshredded[i]
            ==> #[trigger] b.already_deshredded[i]
    &&& forall|f: int|
        0 <= f < MAX_DATA_SHREDS_PER_SLOT && a.already_recovered_fec_sets[f]
            ==> #[trigger] b.already_recovered_fec_sets[f]
    &&& forall|i: int|
        0 <= i < MAX_DATA_SHREDS_PER_SLOT && a.data_shreds[i] is Some
            ==> #[trigger] b.data_shreds[i] == a.data_shreds[i]
}

/// Every slot of `v` is in `w`, with the same or more in its tables.
pub open spec fn only_adds(v: IngestView, w: IngestView) -> bool {
    forall|slot: u64| #[trigger]
        v.slots.contains_key(slot) ==> w.slots.contains_key(slot) && extends(
            v.slots[slot].tracker,
            w.slots[slot].tracker,
        )
}

/// Adding twice is adding.
pub proof fn law_only_adds_transitive(u: IngestView, v: IngestView, w: IngestView)
    requires
        only_adds(u, v),
        only_adds(v, w),
    ensures
        only_adds(u, w),
{
    assert forall|slot: u64| #[trigger] u.slots.contains_key(slot) implies w.slots.contains_key(slot)
        && extends(u.slots[slot].tracker, w.slots[slot].tracker) by {
        let a = u.slots[slot].tracker;
        let b = v.slots[slot].tracker;
        let c = w.slots[slot].tracker;
        assert(v.slots.contains_key(slot));
        assert(extends(a, b) && extends(b, c));
        assert forall|i: int|
            0 <= i < MAX_DATA_SHREDS_PER_SLOT && a.already_deshredded[i] implies
            #[trigger] c.already_deshredded[i] by {
            assert(b.already_deshredded[i]);
        }
        assert forall|f: int|
            0 <= f < MAX_DATA_SHREDS_PER_SLOT && a.already_recovered_fec_sets[f] implies
            #[trigger] c.already_recovered_fec_sets[f] by {
            assert(b.already_recovered_fec_sets[f]);
        }
        assert forall|i: int|
            0 <= i < MAX_DATA_SHREDS_PER_SLOT && a.data_shreds[i] is Some implies
            #[trigger] c.data_shreds[i] == a.data_shreds[i] by {
            assert(b.data_shreds[i] == a.data_shreds[i]);
        }
    }
}

/// A shred that comes in takes nothing away.
pub proof fn law_ingest_only_adds(v: IngestView, shred: ShredView)
    requires
        v.wf(),
    ensures
        only_adds(v, v.after_shred(shred)),
{
    assert forall|slot: u64| #[trigger] v.slots.contains_key(slot) implies v.after_shred(
        shred,
    ).slots.contains_key(slot) && extends(
        v.slots[slot].tracker,
        v.after_shred(shred).slots[slot].tracker,
    ) by {
        assert(v.slots[slot].wf(slot));
    }
}

/// A result that comes in takes nothing away from the tables.
pub proof fn law_result_only_adds(v: IngestView, result: ResultView)
    requires
        v.wf(),
        v.addresses_result(result),
    ensures
        only_adds(v, v.after_result(result)),
{
    assert forall|slot: u64| #[trigger] v.slots.contains_key(slot) implies v.after_result(
        result,
    ).slots.contains_key(slot) && extends(
        v.slots[slot].tracker,
        v.after_result(result).slots[slot].tracker,
    ) by {
        assert(v.slots[slot].wf(slot));
        if slot == result.slot {
            crate::state::law_offering_only_adds(v.slots[slot].tracker, result.recovered);
        }
    }
}

/// Results that come in one after the other take nothing away from the
/// tables.
pub proof fn law_results_only_add(v: IngestView, results: Seq<ResultView>)
    requires
        v.wf(),
        v.addresses_results(results),
    ensures
        only_adds(v, v.after_results(results)),
        v.after_results(results).wf(),
    decreases results.len(),
{
    if results.len() == 0 {
        law_batch_only_adds(v, Seq::empty());
    } else {
        let mid = v.after_results(results.drop_last());
        law_results_only_add(v, results.drop_last());
        law_result_only_adds(mid, results.last());
        law_result_keeps_wf(mid, results.last());
        law_only_adds_transitive(v, mid, mid.after_result(results.last()));
    }
}

/// Sending a job, or failing to, takes nothing away.
pub proof fn law_send_only_adds(v: IngestView, key: (u64, u32), accepted: bool)
    requires
        v.wf(),
        key.1 < MAX_DATA_SHREDS_PER_SLOT,
    ensures
        only_adds(v, v.after_send(key, accepted)),
{
    assert forall|slot: u64| #[trigger] v.slots.contains_key(slot) implies v.after_send(
        key,
        accepted,
    ).slots.contains_key(slot) && extends(
        v.slots[slot].tracker,
        v.after_send(key, accepted).slots[slot].tracker,
    ) by {
        assert(v.slots[slot].wf(slot));
    }
}

/// Handing on shreds takes nothing away.
pub proof fn law_handing_on_only_adds(v: IngestView, slot: u64, start: int, end: int)
    requires
        v.wf(),
    ensures
        only_adds(v, v.after_handing_on(slot, start, end)),
{
    assert forall|s: u64| #[trigger] v.slots.contains_key(s) implies v.after_handing_on(
        slot,
        start,
        end,
    ).slots.contains_key(s) && extends(
        v.slots[s].tracker,
        v.after_handing_on(slot, start, end).slots[s].tracker,
    ) by {
        assert(v.slots[s].wf(s));
    }
}

/// A batch of shreds takes nothing away.
pub proof fn law_batch_only_adds(v: IngestView, shreds: Seq<ShredView>)
    requires
        v.wf(),
    ensures
        only_adds(v, v.after_shreds(shreds)),
        v.after_shreds(shreds).wf(),
    decreases shreds.len(),
{
    if shreds.len() == 0 {
        assert forall|slot: u64| #[trigger] v.slots.contains_key(slot) implies extends(
            v.slots[slot].tracker,
            v.slots[slot].tracker,
        ) by {
            assert(v.slots[slot].wf(slot));
        }
    } else {
        let mid = v.after_shreds(shreds.drop_last());
        law_batch_only_adds(v, shreds.drop_last());
        law_ingest_only_adds(mid, shreds.last());
        law_ingest_keeps_wf(mid, shreds.last());
        law_only_adds_transitive(v, mid, mid.after_shred(shreds.last()));
    }
}

/// A pass over erasure sets takes nothing away, whatever the queue takes.
pub proof fn law_pass_only_adds(
    v: IngestView,
    round: RoundView,
    threshold: u16,
    sends: Seq<(JobView, bool)>,
)
    requires
        v.wf(),
        keys_wf(round.work),
    ensures
        only_adds(v, v.dispatched(round, threshold, sends).0),
        v.dispatched(round, threshold, sends).0.wf(),
    decreases round.work.len() - round.next,
{
    law_batch_only_adds(v, Seq::empty());
    if round.next < round.work.len() {
        let k = round.work[round.next as int];
        match v.plan_for(k, threshold) {
            RecoveryPlan::Nothing => {
                law_pass_only_adds(v, round.step(), threshold, sends);
            },
            RecoveryPlan::Inline => {},
            RecoveryPlan::Queue => {
                let w = v.after_send(k, round.takes(sends));
                law_send_keeps_wf(v, k, round.takes(sends));
                law_send_only_adds(v, k, round.takes(sends));
                let pass = round.after_offer(sends);
                let left = round.sends_left(sends);
                law_pass_only_adds(w, pass, threshold, left);
                law_only_adds_transitive(v, w, w.dispatched(pass, threshold, left).0);
            },
        }
    }
}

/// A run whose beginning is known waits, with the same payloads, until it is
/// handed on, whatever comes in meanwhile.
pub proof fn law_run_waits_until_handed_on(
    v: IngestView,
    w: IngestView,
    key: (u64, u32),
    start: int,
    end: int,
)
    requires
        v.wf(),
        w.wf(),
        only_adds(v, w),
        v.run_at(key, start, end),
        !v.slots[key.0].tracker.start_unknown(start),
        forall|i: int|
            start <= i <= end ==> !#[trigger] w.slots[key.0].tracker.already_deshredded[i],
    ensures
        w.run_at(key, start, end),
        w.payloads(key.0, start, end) == v.payloads(key.0, start, end),
{
    let a = v.slots[key.0].tracker;
    let b = w.slots[key.0].tracker;
    assert(v.slots[key.0].wf(key.0));
    assert(w.slots.contains_key(key.0) && w.slots[key.0].wf(key.0));
    assert(extends(a, b));
    assert forall|i: int| start - 1 <= i <= end && 0 <= i implies #[trigger] b.data_status[i]
        == a.data_status[i] && b.data_shreds[i] == a.data_shreds[i] by {
        assert(a.consistent_at(i));
        assert(b.consistent_at(i));
        if i >= start {
            crate::state::law_complete_run_is_found(a, start, end, start);
            crate::state::law_run_is_complete(a, start, start, end, i);
        }
        assert(a.data_shreds[i] is Some);
        assert(b.data_shreds[i] == a.data_shreds[i]);
    }
    if a.set_reaches(key.1 as int, start, end) {
        let x = choose|x: int|
            start <= x <= end && x < a.data_shreds.len() && (
            #[trigger] a.data_shreds[x] matches Some(s) && s.fec_set_index() == key.1);
        assert(b.data_status[x] == a.data_status[x]);
        assert(b.data_shreds[x] == a.data_shreds[x]);
        assert(b.set_reaches(key.1 as int, start, end));
    }
    assert(b.whole_run(start, end));
    if start > 0 {
        assert(b.data_status[start - 1] == a.data_status[start - 1]);
    }
    assert(w.payloads(key.0, start, end) =~= v.payloads(key.0, start, end)) by {
        assert forall|i: int| 0 <= i < end - start + 1 implies #[trigger] w.payloads(
            key.0,
            start,
            end,
        )[i] == v.payloads(key.0, start, end)[i] by {
            assert(b.data_status[start + i] == a.data_status[start + i]);
        }
    }
}

/// While a slot is in memory, none of its shreds is handed on twice: whatever
/// comes in after `start..=end` has been handed on, no run that can be handed
/// on later contains any index of it.
pub proof fn law_shreds_stay_handed_on(
    v: IngestView,
    w: IngestView,
    slot: u64,
    start: int,
    end: int,
    s: int,
    e: int,
)
    requires
        v.wf(),
        v.slots.contains_key(slot),
        start <= end,
        only_adds(v.after_handing_on(slot, start, end), w),
        w.slots[slot].tracker.whole_run(s, e),
    ensures
        e < start || end < s,
{
    let marked = v.after_handing_on(slot, start, end);
    assert(marked.slots.contains_key(slot));
    assert(v.slots[slot].wf(slot));
    if start <= e && s <= end {
        let i = if s < start {
            start
        } else {
            s
        };
        assert(marked.slots[slot].tracker.already_deshredded[i]);
        assert(w.slots[slot].tracker.already_deshredded[i]);
    }
}

/// A slot that is no longer taken is never taken again: the highest slot only
/// moves up.
pub proof fn law_old_slots_stay_closed(v: IngestView, w: IngestView, shred: ShredView)
    requires
        v.highest_slot_seen <= w.highest_slot_seen,
        shred.slot() < v.oldest_slot(),
    ensures
        !w.accepts(shred),
{
}

/// Nothing that comes in moves the highest slot down.
pub proof fn law_highest_slot_only_rises(
    v: IngestView,
    shred: ShredView,
    result: ResultView,
    key: (u64, u32),
    accepted: bool,
    slot: u64,
    start: int,
    end: int,
)
    ensures
        v.highest_slot_seen <= v.after_shred(shred).highest_slot_seen,
        v.highest_slot_seen <= v.after_result(result).highest_slot_seen,
        v.highest_slot_seen <= v.after_send(key, accepted).highest_slot_seen,
        v.highest_slot_seen <= v.after_handing_on(slot, start, end).highest_slot_seen,
        v.highest_slot_seen <= v.after_cleanup().highest_slot_seen,
{
}

/// The shred that completes a run of entries brings the run out: its erasure
/// set is one to look at, and the run is one of the set's, if it is known where
/// the run begins.
pub proof fn law_completed_run_is_found(v: IngestView, shred: ShredView, start: int, end: int)
    requires
        v.wf(),
        shred.in_range(),
        shred is ShredData,
        v.accepts(shred),
        v.after_shred(shred).slots[shred.slot()].tracker.whole_run(start, end),
        !v.after_shred(shred).slots[shred.slot()].tracker.start_unknown(start),
        start <= shred.index() <= end,
    ensures
        v.after_shred(shred).touched.contains((shred.slot(), shred.fec_set_index())),
        v.after_shred(shred).run_at((shred.slot(), shred.fec_set_index()), start, end),
{
    let w = v.after_shred(shred);
    law_accepted_shred_is_held(v, shred);
    let held = v.slot_or_empty(shred.slot());
    if v.slots.contains_key(shred.slot()) {
        assert(held.wf(shred.slot()));
    } else {
        crate::model::lemma_empty_slot_wf(shred.slot());
    }
    let t = w.slots[shred.slot()].tracker;
    assert(t.data_shreds[shred.index() as int] == Some(shred));
    assert(t.set_reaches(shred.fec_set_index() as int, start, end));
}

/// The shred that shows where a run of entries begins, by ending the run
/// before it, brings the run out likewise, if its erasure set goes on into
/// the run.
pub proof fn law_run_with_a_new_beginning_is_found(
    v: IngestView,
    shred: ShredView,
    start: int,
    end: int,
)
    requires
        v.wf(),
        shred.in_range(),
        shred.ends_run(),
        v.accepts(shred),
        v.after_shred(shred).slots[shred.slot()].tracker.whole_run(start, end),
        v.after_shred(shred).slots[shred.slot()].tracker.set_reaches(
            shred.fec_set_index() as int,
            start,
            end,
        ),
        shred.index() == start - 1,
    ensures
        v.after_shred(shred).touched.contains((shred.slot(), shred.fec_set_index())),
        v.after_shred(shred).run_at((shred.slot(), shred.fec_set_index()), start, end),
{
    law_accepted_shred_is_held(v, shred);
    let held = v.slot_or_empty(shred.slot());
    if v.slots.contains_key(shred.slot()) {
        assert(held.wf(shred.slot()));
    } else {
        crate::model::lemma_empty_slot_wf(shred.slot());
    }
}

/// What offering shreds puts where nothing was is one of them.
proof fn lemma_new_shreds_were_offered(t: TrackerView, shreds: Seq<ShredView>, i: int)
    requires
        t.sized(),
        t.addresses_all(shreds),
        0 <= i < MAX_DATA_SHREDS_PER_SLOT,
        t.data_shreds[i] is None,
        t.offered_all(shreds).data_shreds[i] is Some,
    ensures
        shreds.contains(t.offered_all(shreds).data_shreds[i]->0),
    decreases shreds.len(),
{
    if shreds.len() > 0 {
        let front = shreds.drop_last();
        assert(t.addresses_all(front)) by {
            assert forall|j: int| 0 <= j < front.len() implies t.addresses(
                #[trigger] front[j],
            ) by {
                assert(front[j] == shreds[j]);
            }
        }
        let mid = t.offered_all(front);
        crate::state::law_offering_only_adds(t, front);
        if mid.data_shreds[i] is Some {
            lemma_new_shreds_were_offered(t, front, i);
            let j = choose|j: int| 0 <= j < front.len() && front[j] == mid.data_shreds[i]->0;
            assert(shreds[j] == front[j]);
            assert(t.addresses(shreds[shreds.len() - 1]));
            assert(t.offered_all(shreds).data_shreds[i] == mid.data_shreds[i]);
        } else {
            assert(t.addresses(shreds[shreds.len() - 1]));
            assert(t.offered_all(shreds).data_shreds[i] == Some(shreds.last()));
            assert(shreds[shreds.len() - 1] == shreds.last());
        }
    }
}

/// The recovery that completes a run of entries brings the run out, likewise:
/// one that brings shreds of its erasure set back, and so fills a place `i` of
/// the run.
pub proof fn law_recovered_run_is_found(
    v: IngestView,
    result: ResultView,
    start: int,
    end: int,
    i: int,
)
    requires
        v.wf(),
        v.slots.contains_key(result.slot),
        v.addresses_result(result),
        result.recovered.len() > 0,
        forall|j: int|
            0 <= j < result.recovered.len() ==> (#[trigger] result.recovered[j]).fec_set_index()
                == result.fec_set_index,
        v.after_result(result).slots[result.slot].tracker.whole_run(start, end),
        !v.after_result(result).slots[result.slot].tracker.start_unknown(start),
        start <= i <= end,
        v.slots[result.slot].tracker.data_shreds[i] is None,
    ensures
        v.after_result(result).touched.contains((result.slot, result.fec_set_index)),
        v.after_result(result).run_at((result.slot, result.fec_set_index), start, end),
{
    let w = v.after_result(result);
    let a = v.slots[result.slot].tracker;
    let b = w.slots[result.slot].tracker;
    law_result_keeps_wf(v, result);
    assert(v.slots[result.slot].wf(result.slot));
    assert(w.slots.contains_key(result.slot));
    assert(w.slots[result.slot].wf(result.slot));
    assert(w.touched[v.touched.len() as int] == (result.slot, result.fec_set_index));
    crate::state::law_complete_run_is_found(b, start, end, start);
    crate::state::law_run_is_complete(b, start, start, end, i);
    lemma_new_shreds_were_offered(a, result.recovered, i);
    let x = b.data_shreds[i]->0;
    let j = choose|j: int| 0 <= j < result.recovered.len() && result.recovered[j] == x;
    assert(result.recovered[j].fec_set_index() == result.fec_set_index);
    assert(b.set_reaches(result.fec_set_index as int, start, end));
}

/// A recovery that waits for the next pass goes on waiting whatever happens
/// before it.
pub proof fn law_waiting_recovery_goes_on_waiting(
    v: IngestView,
    shreds: Seq<ShredView>,
    result: ResultView,
    slot: u64,
    start: int,
    end: int,
)
    ensures
        v.after_shreds(shreds).deferred == v.deferred,
        v.after_result(result).deferred == v.deferred,
        v.after_handing_on(slot, start, end).deferred == v.deferred,
        v.after_cleanup().deferred == v.deferred,
    decreases shreds.len(),
{
    if shreds.len() > 0 {
        law_waiting_recovery_goes_on_waiting(v, shreds.drop_last(), result, slot, start, end);
    }
}

/// Dropping old slots leaves every slot of which shreds are still taken as it
/// was, and brings in none.
pub proof fn law_cleanup_keeps_recent_slots(v: IngestView, slot: u64)
    ensures
        slot >= v.oldest_slot() ==> (v.after_cleanup().slots.contains_key(slot)
            == v.slots.contains_key(slot)),
        v.after_cleanup().slots.contains_key(slot) ==> v.slots.contains_key(slot)
            && v.after_cleanup().slots[slot] == v.slots[slot],
        v.crowded() && slot < v.oldest_slot() ==> !v.after_cleanup().slots.contains_key(slot),
{
}

/// A data shred that came in before changes nothing when it comes again.
pub proof fn law_repeated_data_shred_changes_nothing(v: IngestView, shred: ShredView)
    requires
        v.wf(),
        shred is ShredData,
    ensures
        v.after_shred(shred).after_shred(shred) == v.after_shred(shred),
{
    let w = v.after_shred(shred);
    let slot = shred.slot();
    if shred.in_range() {
        let held = v.slot_or_empty(slot);
        assert(held.wf(slot)) by {
            if !v.slots.contains_key(slot) {
                crate::model::lemma_empty_slot_wf(slot);
            }
        }
        if v.accepts(shred) {
            crate::state::law_shred_recorded_once(held.tracker, shred);
            assert(w.slot_or_empty(slot) == held.with_shred(shred));
        } else {
            assert(w.slot_or_empty(slot) == held);
        }
        assert(!w.accepts(shred));
        assert(w.after_shred(shred) =~= w);
    }
}

/// A shred of a slot that is no longer taken changes nothing that is held.
pub proof fn law_stale_shred_changes_nothing_held(v: IngestView, shred: ShredView, slot: u64)
    requires
        shred.slot() < v.oldest_slot(),
    ensures
        v.after_shred(shred).touched == v.touched,
        v.after_shred(shred).deferred == v.deferred,
        v.after_shred(shred).highest_slot_seen == v.highest_slot_seen,
        v.after_shred(shred).stats == v.stats,
        v.slots.contains_key(slot) ==> v.after_shred(shred).slots.contains_key(slot)
            && v.after_shred(shred).slots[slot] == v.slots[slot],
        !v.slots.contains_key(slot) && v.after_shred(shred).slots.contains_key(slot)
            ==> v.after_shred(shred).slots[slot] == SlotView::empty(),
{
}

/// A shred that is accepted makes its erasure set one to look at, is held in
/// it, and moves the highest slot up to its own at least.
pub proof fn law_accepted_shred_is_held(v: IngestView, shred: ShredView)
    requires
        shred.in_range(),
        v.accepts(shred),
    ensures
        ({
            let w = v.after_shred(shred);
            let key = (shred.slot(), shred.fec_set_index());
            &&& w.touched.contains(key)
            &&& w.highest_slot_seen >= shred.slot()
            &&& w.highest_slot_seen >= v.highest_slot_seen
            &&& w.slots.contains_key(key.0)
            &&& w.slots[key.0].fec_sets.contains_key(key.1)
            &&& w.slots[key.0].fec_sets[key.1].contains(shred) || crate::fec_set::holds_same(
                v.slot_or_empty(key.0).set_or_empty(key.1),
                shred,
            )
        }),
{
    let w = v.after_shred(shred);
    let key = (shred.slot(), shred.fec_set_index());
    assert(w.touched[v.touched.len() as int] == key);
    let set = v.slot_or_empty(key.0).set_or_empty(key.1);
    let after = w.slots[key.0].fec_sets[key.1];
    if !crate::fec_set::holds_same(set, shred) {
        assert(after[set.len() as int] == shred);
    }
}

/// While a recovery of a set is in the workers' hands no other is begun.
pub proof fn law_recovery_in_flight_is_not_repeated(
    v: IngestView,
    key: (u64, u32),
    threshold: u16,
)
    requires
        v.wf(),
        key.1 < MAX_DATA_SHREDS_PER_SLOT,
        v.slots.contains_key(key.0),
    ensures
        v.after_send(key, true).plan_for(key, threshold) is Nothing,
{
    assert(v.slots[key.0].wf(key.0));
}

/// A recovery that brings nothing back loses nothing: the set is held as
/// before, and a recovery of it is planned anew if it still needs one.
pub proof fn law_failed_recovery_can_be_repeated(v: IngestView, result: ResultView, threshold: u16)
    requires
        v.wf(),
        v.slots.contains_key(result.slot),
        v.addresses_result(result),
        result.recovered.len() == 0,
    ensures
        ({
            let key = (result.slot, result.fec_set_index);
            let held = v.slots[key.0];
            let w = v.after_result(result);
            &&& w.slots[key.0].fec_sets == held.fec_sets
            &&& !held.tracker.already_recovered_fec_sets[key.1 as int] && held.fec_sets.contains_key(
                key.1,
            ) && recoverable(held.fec_sets[key.1]) ==> !(w.plan_for(
                key,
                threshold,
            ) is Nothing)
        }),
{
    assert(v.slots[result.slot].wf(result.slot));
}

/// A recovery that brings shreds back ends the work on its set: no recovery
/// of it is planned, none of its shreds is held, and none is accepted.
pub proof fn law_recovered_set_is_done(
    v: IngestView,
    result: ResultView,
    threshold: u16,
    shred: ShredView,
)
    requires
        v.wf(),
        v.slots.contains_key(result.slot),
        v.addresses_result(result),
        result.recovered.len() > 0,
        shred.slot() == result.slot,
        shred.fec_set_index() == result.fec_set_index,
    ensures
        ({
            let key = (result.slot, result.fec_set_index);
            let w = v.after_result(result);
            &&& w.plan_for(key, threshold) is Nothing
            &&& w.slots[key.0].set_or_empty(key.1).len() == 0
            &&& !w.accepts(shred)
            &&& w.touched.contains(key)
        }),
{
    assert(v.slots[result.slot].wf(result.slot));
    crate::state::law_offering_only_adds(v.slots[result.slot].tracker, result.recovered);
    let w = v.after_result(result);
    assert(w.touched[v.touched.len() as int] == (result.slot, result.fec_set_index));
}

/// Sending the job of one set, or failing to, leaves what is held of the sets
/// as it is, and what is to be done about every other.
proof fn lemma_send_leaves_other_sets(
    v: IngestView,
    k: (u64, u32),
    taken: bool,
    key: (u64, u32),
    threshold: u16,
)
    requires
        v.wf(),
        k.1 < MAX_DATA_SHREDS_PER_SLOT,
        key.1 < MAX_DATA_SHREDS_PER_SLOT,
    ensures
        forall|job: JobView| v.after_send(k, taken).is_job(key, job) == #[trigger] v.is_job(key, job),
        key != k ==> v.after_send(k, taken).plan_for(key, threshold) == v.plan_for(key, threshold),
        v.after_send(k, taken).in_flight(key) == (v.in_flight(key) || (taken && key == k
            && v.slots.contains_key(k.0))),
{
    if v.slots.contains_key(k.0) {
        assert(v.slots[k.0].wf(k.0));
    }
    if v.slots.contains_key(key.0) {
        assert(v.slots[key.0].wf(key.0));
    }
}

/// In a pass nothing is offered to the queue once a job has been turned away.
pub proof fn law_nothing_is_sent_after_a_refusal(
    v: IngestView,
    round: RoundView,
    threshold: u16,
    sends: Seq<(JobView, bool)>,
)
    requires
        v.makes_sends(round, threshold, sends),
    ensures
        round.pool_full ==> sends.len() == 0,
        forall|j: int| 0 <= j < sends.len() - 1 ==> (#[trigger] sends[j]).1,
    decreases round.work.len() - round.next,
{
    if round.next < round.work.len() {
        let k = round.work[round.next as int];
        match v.plan_for(k, threshold) {
            RecoveryPlan::Nothing => {
                law_nothing_is_sent_after_a_refusal(v, round.step(), threshold, sends);
            },
            RecoveryPlan::Inline => {},
            RecoveryPlan::Queue => {
                let left = round.sends_left(sends);
                law_nothing_is_sent_after_a_refusal(
                    v.after_send(k, round.takes(sends)),
                    round.after_offer(sends),
                    threshold,
                    left,
                );
                if !round.pool_full {
                    assert forall|j: int| 0 <= j < sends.len() - 1 implies (
                    #[trigger] sends[j]).1 by {
                        if j > 0 {
                            assert(left[j - 1] == sends[j]);
                        }
                    }
                }
            },
        }
    }
}

/// Every job that a pass offers to the queue is that of a set that the pass
/// has gone over and that was to be handed to the workers when it began: all
/// the shreds held of the set, in the order in which a recovery takes them.
pub proof fn law_only_due_sets_are_sent(
    v: IngestView,
    round: RoundView,
    threshold: u16,
    sends: Seq<(JobView, bool)>,
    j: int,
)
    requires
        v.wf(),
        keys_wf(round.work),
        ascending(round.work),
        v.makes_sends(round, threshold, sends),
        0 <= j < sends.len(),
    ensures
        v.plan_for(job_key(sends[j].0), threshold) is Queue,
        v.is_job(job_key(sends[j].0), sends[j].0),
        exists|i: int|
            round.next <= i < v.dispatched(round, threshold, sends).1.next && i < round.work.len()
                && #[trigger] round.work[i] == job_key(sends[j].0),
    decreases round.work.len() - round.next,
{
    if round.next < round.work.len() {
        let k = round.work[round.next as int];
        let job = sends[j].0;
        let key = job_key(job);
        law_pass_moves_on(v, round, threshold, sends);
        match v.plan_for(k, threshold) {
            RecoveryPlan::Nothing => {
                law_only_due_sets_are_sent(v, round.step(), threshold, sends, j);
            },
            RecoveryPlan::Inline => {},
            RecoveryPlan::Queue => {
                let taken = round.takes(sends);
                let w = v.after_send(k, taken);
                let pass = round.after_offer(sends);
                let left = round.sends_left(sends);
                law_send_keeps_wf(v, k, taken);
                law_pass_moves_on(w, pass, threshold, left);
                if !round.pool_full && j == 0 {
                    assert(key == k);
                    assert(round.work[round.next as int] == key);
                } else {
                    let at = if round.pool_full {
                        j
                    } else {
                        j - 1
                    };
                    assert(left[at] == sends[j]);
                    law_only_due_sets_are_sent(w, pass, threshold, left, at);
                    let i = choose|i: int|
                        pass.next <= i < w.dispatched(pass, threshold, left).1.next && i
                            < pass.work.len() && #[trigger] pass.work[i] == key;
                    assert(round.work[i] == key);
                    assert(crate::worklist::key_lt(k, key));
                    lemma_send_leaves_other_sets(v, k, taken, key, threshold);
                    assert(v.is_job(key, job));
                }
            },
        }
    }
}

/// A pass does not go back, keeps its list of sets, and goes to the end of it
/// unless it stops at a set to be recovered on the ingest thread.
pub proof fn law_pass_moves_on(
    v: IngestView,
    round: RoundView,
    threshold: u16,
    sends: Seq<(JobView, bool)>,
)
    ensures
        ({
            let (_, pass, stop) = v.dispatched(round, threshold, sends);
            &&& round.next <= pass.next
            &&& round.next < round.work.len() ==> round.next < pass.next
            &&& pass.work == round.work
            &&& stop is None ==> pass.next >= round.work.len()
        }),
    decreases round.work.len() - round.next,
{
    if round.next < round.work.len() {
        let k = round.work[round.next as int];
        match v.plan_for(k, threshold) {
            RecoveryPlan::Nothing => {
                law_pass_moves_on(v, round.step(), threshold, sends);
            },
            RecoveryPlan::Inline => {},
            RecoveryPlan::Queue => {
                law_pass_moves_on(
                    v.after_send(k, round.takes(sends)),
                    round.after_offer(sends),
                    threshold,
                    round.sends_left(sends),
                );
            },
        }
    }
}

/// A pass stops at the first set that is to be recovered on the ingest thread,
/// and at no other.
pub proof fn law_where_a_pass_stops(
    v: IngestView,
    round: RoundView,
    threshold: u16,
    sends: Seq<(JobView, bool)>,
    i: int,
)
    requires
        v.wf(),
        keys_wf(round.work),
        ascending(round.work),
        round.next <= i < round.work.len(),
    ensures
        ({
            let (_, pass, stop) = v.dispatched(round, threshold, sends);
            &&& v.plan_for(round.work[i], threshold) is Inline ==> pass.next <= i + 1 && stop is Some
            &&& stop matches Some(key) ==> pass.next > round.next && key == round.work[pass.next
                - 1] && v.plan_for(key, threshold) is Inline
        }),
    decreases round.work.len() - round.next,
{
    let k = round.work[round.next as int];
    let key = round.work[i];
    if i > round.next {
        assert(crate::worklist::key_lt(k, key));
    }
    match v.plan_for(k, threshold) {
        RecoveryPlan::Nothing => {
            if round.next + 1 < round.work.len() {
                let next = if i > round.next {
                    i
                } else {
                    i + 1
                };
                law_where_a_pass_stops(v, round.step(), threshold, sends, next);
            }
        },
        RecoveryPlan::Inline => {},
        RecoveryPlan::Queue => {
            let taken = round.takes(sends);
            let w = v.after_send(k, taken);
            let pass = round.after_offer(sends);
            let left = round.sends_left(sends);
            law_send_keeps_wf(v, k, taken);
            if round.next + 1 < round.work.len() {
                let next = if i > round.next {
                    i
                } else {
                    i + 1
                };
                law_where_a_pass_stops(w, pass, threshold, left, next);
                lemma_send_leaves_other_sets(v, k, taken, round.work[next], threshold);
                let (_, last, stop) = w.dispatched(pass, threshold, left);
                law_pass_moves_on(w, pass, threshold, left);
                if let Some(at) = stop {
                    assert(at == round.work[last.next - 1]);
                    assert(last.next > pass.next);
                    lemma_stop_is_in_the_list(w, pass, threshold, left);
                    assert(crate::worklist::key_lt(k, at));
                    lemma_send_leaves_other_sets(v, k, taken, at, threshold);
                }
            }
        },
    }
}

/// A pass stops inside its list.
proof fn lemma_stop_is_in_the_list(
    v: IngestView,
    round: RoundView,
    threshold: u16,
    sends: Seq<(JobView, bool)>,
)
    ensures
        v.dispatched(round, threshold, sends).2 is Some ==> v.dispatched(
            round,
            threshold,
            sends,
        ).1.next <= round.work.len(),
    decreases round.work.len() - round.next,
{
    if round.next < round.work.len() {
        let k = round.work[round.next as int];
        match v.plan_for(k, threshold) {
            RecoveryPlan::Nothing => {
                lemma_stop_is_in_the_list(v, round.step(), threshold, sends);
            },
            RecoveryPlan::Inline => {},
            RecoveryPlan::Queue => {
                lemma_stop_is_in_the_list(
                    v.after_send(k, round.takes(sends)),
                    round.after_offer(sends),
                    threshold,
                    round.sends_left(sends),
                );
            },
        }
    }
}

/// A pass offers at most one job of each set to the queue: the sets whose jobs
/// it offers ascend.
pub proof fn law_one_send_per_set(
    v: IngestView,
    round: RoundView,
    threshold: u16,
    sends: Seq<(JobView, bool)>,
    a: int,
    b: int,
)
    requires
        v.wf(),
        keys_wf(round.work),
        ascending(round.work),
        v.makes_sends(round, threshold, sends),
        0 <= a < b < sends.len(),
    ensures
        crate::worklist::key_lt(job_key(sends[a].0), job_key(sends[b].0)),
        job_key(sends[a].0) != job_key(sends[b].0),
    decreases round.work.len() - round.next,
{
    if round.next < round.work.len() {
        let k = round.work[round.next as int];
        match v.plan_for(k, threshold) {
            RecoveryPlan::Nothing => {
                law_one_send_per_set(v, round.step(), threshold, sends, a, b);
            },
            RecoveryPlan::Inline => {},
            RecoveryPlan::Queue => {
                let taken = round.takes(sends);
                let w = v.after_send(k, taken);
                let pass = round.after_offer(sends);
                let left = round.sends_left(sends);
                law_send_keeps_wf(v, k, taken);
                if round.pool_full {
                    law_one_send_per_set(w, pass, threshold, left, a, b);
                } else if a == 0 {
                    assert(job_key(sends[0].0) == k);
                    assert(left[b - 1] == sends[b]);
                    law_only_due_sets_are_sent(w, pass, threshold, left, b - 1);
                    let i = choose|i: int|
                        pass.next <= i < w.dispatched(pass, threshold, left).1.next && i
                            < pass.work.len() && #[trigger] pass.work[i] == job_key(sends[b].0);
                    assert(crate::worklist::key_lt(round.work[round.next as int], round.work[i]));
                } else {
                    assert(left[a - 1] == sends[a] && left[b - 1] == sends[b]);
                    law_one_send_per_set(w, pass, threshold, left, a - 1, b - 1);
                }
            },
        }
    }
}

/// A set that a pass has gone over and that was to be handed to the workers
/// when it began has had its job offered to the queue, if the queue turned
/// none away.
pub proof fn law_due_sets_are_sent(
    v: IngestView,
    round: RoundView,
    threshold: u16,
    sends: Seq<(JobView, bool)>,
    i: int,
)
    requires
        v.wf(),
        keys_wf(round.work),
        ascending(round.work),
        v.makes_sends(round, threshold, sends),
        !round.pool_full,
        forall|j: int| 0 <= j < sends.len() ==> (#[trigger] sends[j]).1,
        round.next <= i < v.dispatched(round, threshold, sends).1.next,
        i < round.work.len(),
        v.plan_for(round.work[i], threshold) is Queue,
    ensures
        exists|j: int|
            0 <= j < sends.len() && job_key((#[trigger] sends[j]).0) == round.work[i] && v.is_job(
                round.work[i],
                sends[j].0,
            ),
    decreases round.work.len() - round.next,
{
    let key = round.work[i];
    let k = round.work[round.next as int];
    if i > round.next {
        assert(crate::worklist::key_lt(k, key));
    }
    match v.plan_for(k, threshold) {
        RecoveryPlan::Nothing => {
            law_due_sets_are_sent(v, round.step(), threshold, sends, i);
        },
        RecoveryPlan::Inline => {},
        RecoveryPlan::Queue => {
            if i == round.next {
                assert(job_key(sends[0].0) == key);
            } else {
                let taken = round.takes(sends);
                let w = v.after_send(k, taken);
                let left = round.sends_left(sends);
                law_send_keeps_wf(v, k, taken);
                lemma_send_leaves_other_sets(v, k, taken, key, threshold);
                assert forall|j: int| 0 <= j < left.len() implies (#[trigger] left[j]).1 by {
                    assert(left[j] == sends[j + 1]);
                }
                law_due_sets_are_sent(w, round.after_offer(sends), threshold, left, i);
                let j = choose|j: int|
                    0 <= j < left.len() && job_key((#[trigger] left[j]).0) == key && w.is_job(
                        key,
                        left[j].0,
                    );
                assert(sends[j + 1] == left[j]);
                assert(v.is_job(key, sends[j + 1].0));
            }
        },
    }
}

/// A pass over one set offers its job to the queue, once, exactly if the set
/// is to be handed to the workers.
pub proof fn law_pass_over_one_set(
    v: IngestView,
    key: (u64, u32),
    threshold: u16,
    sends: Seq<(JobView, bool)>,
)
    requires
        v.makes_sends(
            (RoundView { work: seq![key], next: 0, pool_full: false }),
            threshold,
            sends,
        ),
    ensures
        sends.len() == if v.plan_for(key, threshold) is Queue {
            1nat
        } else {
            0
        },
        v.plan_for(key, threshold) is Queue ==> v.is_job(key, sends[0].0),
{
    reveal_with_fuel(IngestView::makes_sends, 3);
}

/// After a pass the recovery of a set is in the workers' hands exactly if it
/// was before or the queue took its job.
pub proof fn law_in_flight_exactly_when_taken(
    v: IngestView,
    round: RoundView,
    threshold: u16,
    sends: Seq<(JobView, bool)>,
    key: (u64, u32),
)
    requires
        v.wf(),
        keys_wf(round.work),
        v.makes_sends(round, threshold, sends),
        key.1 < MAX_DATA_SHREDS_PER_SLOT,
    ensures
        v.dispatched(round, threshold, sends).0.in_flight(key) <==> v.in_flight(key) || exists|
            j: int,
        |
            0 <= j < sends.len() && job_key((#[trigger] sends[j]).0) == key && sends[j].1,
    decreases round.work.len() - round.next,
{
    if round.next < round.work.len() {
        let k = round.work[round.next as int];
        match v.plan_for(k, threshold) {
            RecoveryPlan::Nothing => {
                law_in_flight_exactly_when_taken(v, round.step(), threshold, sends, key);
            },
            RecoveryPlan::Inline => {},
            RecoveryPlan::Queue => {
                let taken = round.takes(sends);
                let w = v.after_send(k, taken);
                let left = round.sends_left(sends);
                law_send_keeps_wf(v, k, taken);
                lemma_send_leaves_other_sets(v, k, taken, key, threshold);
                law_in_flight_exactly_when_taken(
                    w,
                    round.after_offer(sends),
                    threshold,
                    left,
                    key,
                );
                if !round.pool_full {
                    assert(job_key(sends[0].0) == k);
                    if exists|j: int|
                        0 <= j < sends.len() && job_key((#[trigger] sends[j]).0) == key
                            && sends[j].1 {
                        let j = choose|j: int|
                            0 <= j < sends.len() && job_key((#[trigger] sends[j]).0) == key
                                && sends[j].1;
                        if j > 0 {
                            assert(left[j - 1] == sends[j]);
                        }
                    }
                    if exists|j: int|
                        0 <= j < left.len() && job_key((#[trigger] left[j]).0) == key
                            && left[j].1 {
                        let j = choose|j: int|
                            0 <= j < left.len() && job_key((#[trigger] left[j]).0) == key
                                && left[j].1;
                        assert(sends[j + 1] == left[j]);
                    }
                }
            },
        }
    }
}

/// A pass changes nothing but which recoveries are in the workers' hands and
/// which wait for the next pass.
pub proof fn law_pass_changes_nothing_else(
    v: IngestView,
    round: RoundView,
    threshold: u16,
    sends: Seq<(JobView, bool)>,
)
    ensures
        ({
            let w = v.dispatched(round, threshold, sends).0;
            &&& w.touched == v.touched
            &&& w.highest_slot_seen == v.highest_slot_seen
            &&& w.stats == v.stats
            &&& v.deferred.is_prefix_of(w.deferred)
            &&& w.slots.dom() == v.slots.dom()
            &&& forall|slot: u64| #[trigger]
                v.slots.contains_key(slot) ==> w.slots[slot] == (SlotView {
                    tracker: TrackerView {
                        recovery_in_flight: w.slots[slot].tracker.recovery_in_flight,
                        ..v.slots[slot].tracker
                    },
                    ..v.slots[slot]
                })
        }),
    decreases round.work.len() - round.next,
{
    if round.next < round.work.len() {
        let k = round.work[round.next as int];
        match v.plan_for(k, threshold) {
            RecoveryPlan::Nothing => {
                law_pass_changes_nothing_else(v, round.step(), threshold, sends);
            },
            RecoveryPlan::Inline => {},
            RecoveryPlan::Queue => {
                let taken = round.takes(sends);
                let w = v.after_send(k, taken);
                law_pass_changes_nothing_else(
                    w,
                    round.after_offer(sends),
                    threshold,
                    round.sends_left(sends),
                );
                assert(w.slots.dom() =~= v.slots.dom());
                let last = w.dispatched(
                    round.after_offer(sends),
                    threshold,
                    round.sends_left(sends),
                ).0;
                assert forall|slot: u64| #[trigger] v.slots.contains_key(slot) implies
                    last.slots[slot] == (SlotView {
                    tracker: TrackerView {
                        recovery_in_flight: last.slots[slot].tracker.recovery_in_flight,
                        ..v.slots[slot].tracker
                    },
                    ..v.slots[slot]
                }) by {
                    assert(w.slots.contains_key(slot));
                }
            },
        }
    }
}

/// While a recovery of a set is in the workers' hands a pass offers no other
/// to the queue.
pub proof fn law_set_in_flight_is_not_sent(
    v: IngestView,
    round: RoundView,
    threshold: u16,
    sends: Seq<(JobView, bool)>,
    j: int,
)
    requires
        v.wf(),
        keys_wf(round.work),
        ascending(round.work),
        v.makes_sends(round, threshold, sends),
        0 <= j < sends.len(),
    ensures
        !v.in_flight(job_key(sends[j].0)),
{
    law_only_due_sets_are_sent(v, round, threshold, sends, j);
}

/// A recovery in the workers' hands stays there until its result comes in,
/// whatever shreds and results of other sets do.
pub proof fn law_in_flight_until_the_result(
    v: IngestView,
    key: (u64, u32),
    shred: ShredView,
    result: ResultView,
    slot: u64,
    start: int,
    end: int,
)
    requires
        v.wf(),
        v.in_flight(key),
        v.addresses_result(result),
        (result.slot, result.fec_set_index) != key,
    ensures
        v.after_shred(shred).in_flight(key),
        v.after_result(result).in_flight(key),
        v.after_handing_on(slot, start, end).in_flight(key),
{
    assert(v.slots[key.0].wf(key.0));
    if key.0 == result.slot {
        crate::state::law_offering_only_adds(v.slots[key.0].tracker, result.recovered);
    }
}

/// With a threshold of zero every recovery goes to the workers.
pub proof fn law_zero_threshold_disables_inline_recovery(
    v: IngestView,
    key: (u64, u32),
    round: RoundView,
    sends: Seq<(JobView, bool)>,
)
    ensures
        !(v.plan_for(key, 0) is Inline),
        v.dispatched(round, 0, sends).2 is None,
    decreases round.work.len() - round.next,
{
    if round.next < round.work.len() {
        let k = round.work[round.next as int];
        match v.plan_for(k, 0) {
            RecoveryPlan::Nothing => {
                law_zero_threshold_disables_inline_recovery(v, key, round.step(), sends);
            },
            RecoveryPlan::Inline => {},
            RecoveryPlan::Queue => {
                law_zero_threshold_disables_inline_recovery(
                    v.after_send(k, round.takes(sends)),
                    key,
                    round.after_offer(sends),
                    round.sends_left(sends),
                );
            },
        }
    }
}

/// A recovery of the set is in the workers' hands, or waits for the next
/// pass.
pub open spec fn queued_or_waiting(v: IngestView, key: (u64, u32)) -> bool {
    v.deferred.contains(key) || v.in_flight(key)
}

/// A pass keeps what is queued or waits.
proof fn lemma_pass_keeps_queued(
    v: IngestView,
    round: RoundView,
    threshold: u16,
    sends: Seq<(JobView, bool)>,
    key: (u64, u32),
)
    requires
        queued_or_waiting(v, key),
        key.1 < MAX_DATA_SHREDS_PER_SLOT,
        v.wf(),
        keys_wf(round.work),
    ensures
        queued_or_waiting(v.dispatched(round, threshold, sends).0, key),
    decreases round.work.len() - round.next,
{
    if round.next < round.work.len() {
        let k = round.work[round.next as int];
        match v.plan_for(k, threshold) {
            RecoveryPlan::Nothing => {
                lemma_pass_keeps_queued(v, round.step(), threshold, sends, key);
            },
            RecoveryPlan::Inline => {},
            RecoveryPlan::Queue => {
                let taken = round.takes(sends);
                let w = v.after_send(k, taken);
                law_send_keeps_wf(v, k, taken);
                lemma_send_leaves_other_sets(v, k, taken, key, threshold);
                crate::worklist::lemma_push_contains(v.deferred, k, key);
                lemma_pass_keeps_queued(
                    w,
                    round.after_offer(sends),
                    threshold,
                    round.sends_left(sends),
                    key,
                );
            },
        }
    }
}

/// No recovery is lost to a full queue: each set that a pass has gone over
/// and that was to be handed to the workers is in their hands, or waits for
/// the next pass.
pub proof fn law_no_recovery_is_lost(
    v: IngestView,
    round: RoundView,
    threshold: u16,
    sends: Seq<(JobView, bool)>,
    i: int,
)
    requires
        v.wf(),
        keys_wf(round.work),
        ascending(round.work),
        round.next <= i < v.dispatched(round, threshold, sends).1.next,
        i < round.work.len(),
        v.plan_for(round.work[i], threshold) is Queue,
    ensures
        queued_or_waiting(v.dispatched(round, threshold, sends).0, round.work[i]),
    decreases round.work.len() - round.next,
{
    let key = round.work[i];
    let k = round.work[round.next as int];
    if i > round.next {
        assert(crate::worklist::key_lt(k, key));
    }
    match v.plan_for(k, threshold) {
        RecoveryPlan::Nothing => {
            law_no_recovery_is_lost(v, round.step(), threshold, sends, i);
        },
        RecoveryPlan::Inline => {},
        RecoveryPlan::Queue => {
            let taken = round.takes(sends);
            let w = v.after_send(k, taken);
            let pass = round.after_offer(sends);
            let left = round.sends_left(sends);
            law_send_keeps_wf(v, k, taken);
            lemma_send_leaves_other_sets(v, k, taken, key, threshold);
            if i == round.next {
                crate::worklist::lemma_push_contains(v.deferred, k, key);
                lemma_pass_keeps_queued(w, pass, threshold, left, key);
            } else {
                law_no_recovery_is_lost(w, pass, threshold, left, i);
            }
        },
    }
}

/// A job that had to wait is offered again: where the recovery of a set waits
/// as the next pass begins, and is still to be handed to the workers, that
/// pass offers its job to the queue, if it goes to its end and the queue turns
/// none away. `w` is what `v` becomes as the pass begins: its list holds the
/// sets touched and those that wait.
pub proof fn law_waiting_recovery_is_sent(
    v: IngestView,
    w: IngestView,
    round: RoundView,
    threshold: u16,
    sends: Seq<(JobView, bool)>,
    key: (u64, u32),
)
    requires
        v.deferred.contains(key),
        v.plan_for(key, threshold) is Queue,
        w.wf(),
        w.slots == v.slots,
        keys_wf(round.work),
        ascending(round.work),
        round.work.to_set() == v.touched.to_set() + v.deferred.to_set(),
        round.next == 0,
        !round.pool_full,
        w.makes_sends(round, threshold, sends),
        w.dispatched(round, threshold, sends).2 is None,
        forall|j: int| 0 <= j < sends.len() ==> (#[trigger] sends[j]).1,
    ensures
        exists|j: int|
            0 <= j < sends.len() && job_key((#[trigger] sends[j]).0) == key && v.is_job(
                key,
                sends[j].0,
            ),
        w.dispatched(round, threshold, sends).0.in_flight(key),
{
    assert(v.deferred.to_set().contains(key));
    assert(round.work.to_set().contains(key));
    assert(round.work.contains(key));
    let i = choose|i: int| 0 <= i < round.work.len() && round.work[i] == key;
    law_pass_moves_on(w, round, threshold, sends);
    law_due_sets_are_sent(w, round, threshold, sends, i);
    let j = choose|j: int|
        0 <= j < sends.len() && job_key((#[trigger] sends[j]).0) == key && w.is_job(
            key,
            sends[j].0,
        );
    assert(v.is_job(key, sends[j].0));
    law_in_flight_exactly_when_taken(w, round, threshold, sends, key);
}

/// A coding shred that agrees with those of a set leaves the set one that can
/// and needs to be recovered.
pub proof fn law_coding_shred_keeps_set_recoverable(
    set: Seq<ShredView>,
    shred: ShredView,
    n: u16,
    c: u16,
)
    requires
        recoverable(set),
        shred is ShredCode,
        coding_shreds_say(set.push(shred), n, c),
        n != 0,
        has_code(set),
    ensures
        recoverable(set.push(shred)),
{
    let after = set.push(shred);
    assert(after[set.len() as int] is ShredCode);
    assert(coding_shreds_say(set, n, c)) by {
        assert forall|i: int| 0 <= i < set.len() implies ((
        #[trigger] set[i]) matches ShredView::ShredCode(s) ==> s.coding_header.num_data_shreds == n
            && s.coding_header.num_coding_shreds == c) by {
            assert(after[i] == set[i]);
        }
    }
    law_agreeing_coding_shreds_decide(set, n, c);
    law_agreeing_coding_shreds_decide(after, n, c);
    reveal(Seq::filter);
    assert(after.drop_last() =~= set);
    assert(data_shreds_of(after) =~= data_shreds_of(set));
}

/// A recovery that failed is tried again when another coding shred of the set
/// comes in: the next pass offers a job with all the shreds that the set had
/// and the new one, if the queue turns none away. The coding shreds of the
/// set agree, and `round` is the pass that goes over the set.
pub proof fn law_failed_recovery_is_sent_again(
    v: IngestView,
    result: ResultView,
    shred: ShredView,
    n: u16,
    c: u16,
    round: RoundView,
    sends: Seq<(JobView, bool)>,
    i: int,
)
    requires
        v.wf(),
        v.slots.contains_key(result.slot),
        v.addresses_result(result),
        result.recovered.len() == 0,
        !v.slots[result.slot].tracker.already_recovered_fec_sets[result.fec_set_index as int],
        v.slots[result.slot].fec_sets.contains_key(result.fec_set_index),
        recoverable(v.slots[result.slot].fec_sets[result.fec_set_index]),
        has_code(v.slots[result.slot].fec_sets[result.fec_set_index]),
        coding_shreds_say(
            v.slots[result.slot].fec_sets[result.fec_set_index].push(shred),
            n,
            c,
        ),
        n != 0,
        shred is ShredCode,
        shred.in_range(),
        (shred.slot(), shred.fec_set_index()) == (result.slot, result.fec_set_index),
        v.after_result(result).accepts(shred),
        !crate::fec_set::holds_same(
            v.slots[result.slot].fec_sets[result.fec_set_index],
            shred,
        ),
        keys_wf(round.work),
        ascending(round.work),
        round.next <= i < round.work.len(),
        round.work[i] == (result.slot, result.fec_set_index),
        !round.pool_full,
        v.after_result(result).after_shred(shred).makes_sends(round, 0, sends),
        forall|j: int| 0 <= j < sends.len() ==> (#[trigger] sends[j]).1,
    ensures
        exists|j: int|
            0 <= j < sends.len() && job_key((#[trigger] sends[j]).0) == round.work[i]
                && in_recovery_order(
                v.slots[result.slot].fec_sets[result.fec_set_index].push(shred),
                sends[j].0.shreds,
            ),
{
    let key = (result.slot, result.fec_set_index);
    let set = v.slots[key.0].fec_sets[key.1];
    let failed = v.after_result(result);
    let w = failed.after_shred(shred);
    assert(v.slots[key.0].wf(key.0));
    law_result_keeps_wf(v, result);
    law_ingest_keeps_wf(failed, shred);
    assert(w.slots[key.0].fec_sets[key.1] == set.push(shred));
    law_coding_shred_keeps_set_recoverable(set, shred, n, c);
    assert(w.plan_for(key, 0) is Queue);
    law_zero_threshold_disables_inline_recovery(w, key, round, sends);
    law_pass_moves_on(w, round, 0, sends);
    law_due_sets_are_sent(w, round, 0, sends, i);
    let j = choose|j: int|
        0 <= j < sends.len() && job_key((#[trigger] sends[j]).0) == key && w.is_job(
            key,
            sends[j].0,
        );
    assert(job_key(sends[j].0) == round.work[i]);
}

/// Every erasure set of `v` is in `w`, with the shreds that it held, in their
/// order, and perhaps others behind them.
pub open spec fn keeps_sets(v: IngestView, w: IngestView) -> bool {
    forall|slot: u64, f: u32|
        v.slots.contains_key(slot) && #[trigger] v.slots[slot].fec_sets.contains_key(f)
            ==> w.slots.contains_key(slot) && w.slots[slot].fec_sets.contains_key(f)
            && v.slots[slot].fec_sets[f].is_prefix_of(w.slots[slot].fec_sets[f])
}

/// Shreds that come in remove none from any erasure set.
pub proof fn law_batch_keeps_sets(v: IngestView, shreds: Seq<ShredView>)
    ensures
        keeps_sets(v, v.after_shreds(shreds)),
    decreases shreds.len(),
{
    if shreds.len() > 0 {
        let mid = v.after_shreds(shreds.drop_last());
        let w = mid.after_shred(shreds.last());
        law_batch_keeps_sets(v, shreds.drop_last());
        assert forall|slot: u64, f: u32|
            v.slots.contains_key(slot) && #[trigger] v.slots[slot].fec_sets.contains_key(
                f,
            ) implies w.slots.contains_key(slot) && w.slots[slot].fec_sets.contains_key(f)
            && v.slots[slot].fec_sets[f].is_prefix_of(w.slots[slot].fec_sets[f]) by {
            assert(mid.slots[slot].fec_sets.contains_key(f));
            assert(mid.slots[slot].fec_sets[f].is_prefix_of(w.slots[slot].fec_sets[f]));
        }
    }
}

/// Handing on shreds leaves every erasure set with the shreds that it held.
pub proof fn law_handing_on_keeps_sets(v: IngestView, slot: u64, start: int, end: int)
    ensures
        keeps_sets(v, v.after_handing_on(slot, start, end)),
{
}

/// A result leaves every erasure set but its own with the shreds that it
/// held, and its own too if it is empty.
pub proof fn law_result_keeps_other_sets(v: IngestView, result: ResultView, key: (u64, u32))
    requires
        v.slots.contains_key(key.0),
        v.slots[key.0].fec_sets.contains_key(key.1),
        key != (result.slot, result.fec_set_index) || result.recovered.len() == 0,
    ensures
        v.after_result(result).slots.contains_key(key.0),
        v.after_result(result).slots[key.0].fec_sets.contains_key(key.1),
        v.after_result(result).slots[key.0].fec_sets[key.1] == v.slots[key.0].fec_sets[key.1],
{
}

/// There is no use for `shred`, and its slot is in memory if it could be: it
/// changes nothing.
spec fn without_effect(v: IngestView, shred: ShredView) -> bool {
    shred.in_range() ==> v.slots.contains_key(shred.slot()) && !v.accepts(shred)
}

/// A shred that changes nothing does not begin to when another comes in.
proof fn lemma_without_effect_stays(v: IngestView, shred: ShredView, other: ShredView)
    requires
        v.wf(),
        shred is ShredData,
        without_effect(v, shred),
    ensures
        without_effect(v.after_shred(other), shred),
{
    if shred.in_range() {
        assert(v.slots[shred.slot()].wf(shred.slot()));
    }
}

/// After a batch of data shreds none of them has an effect.
proof fn lemma_batch_is_without_effect(v: IngestView, shreds: Seq<ShredView>)
    requires
        v.wf(),
        forall|i: int| 0 <= i < shreds.len() ==> (#[trigger] shreds[i]) is ShredData,
    ensures
        forall|i: int|
            0 <= i < shreds.len() ==> without_effect(v.after_shreds(shreds), #[trigger] shreds[i]),
    decreases shreds.len(),
{
    if shreds.len() > 0 {
        let front = shreds.drop_last();
        let last = shreds.last();
        let mid = v.after_shreds(front);
        let w = mid.after_shred(last);
        assert forall|i: int| 0 <= i < front.len() implies (#[trigger] front[i]) is ShredData by {
            assert(front[i] == shreds[i]);
        }
        lemma_batch_is_without_effect(v, front);
        law_batch_only_adds(v, front);
        assert forall|i: int| 0 <= i < shreds.len() implies without_effect(
            w,
            #[trigger] shreds[i],
        ) by {
            if i < front.len() {
                assert(front[i] == shreds[i]);
                lemma_without_effect_stays(mid, front[i], last);
            } else if last.in_range() {
                let held = mid.slot_or_empty(last.slot());
                if mid.slots.contains_key(last.slot()) {
                    assert(held.wf(last.slot()));
                } else {
                    crate::model::lemma_empty_slot_wf(last.slot());
                }
                if mid.accepts(last) {
                    crate::state::law_shred_recorded_once(held.tracker, last);
                }
            }
        }
    }
}

/// A batch of data shreds that came in before changes nothing when it comes
/// again.
pub proof fn law_repeated_batch_changes_nothing(v: IngestView, shreds: Seq<ShredView>)
    requires
        v.wf(),
        forall|i: int| 0 <= i < shreds.len() ==> (#[trigger] shreds[i]) is ShredData,
    ensures
        v.after_shreds(shreds).after_shreds(shreds) == v.after_shreds(shreds),
{
    lemma_batch_is_without_effect(v, shreds);
    lemma_shreds_without_effect(v.after_shreds(shreds), shreds);
}

/// Shreds without effect leave the state as it is.
proof fn lemma_shreds_without_effect(v: IngestView, shreds: Seq<ShredView>)
    requires
        forall|i: int| 0 <= i < shreds.len() ==> without_effect(v, #[trigger] shreds[i]),
    ensures
        v.after_shreds(shreds) == v,
    decreases shreds.len(),
{
    if shreds.len() > 0 {
        let front = shreds.drop_last();
        assert forall|i: int| 0 <= i < front.len() implies without_effect(v, #[trigger] front[i]) by {
            assert(front[i] == shreds[i]);
        }
        lemma_shreds_without_effect(v, front);
        assert(without_effect(v, shreds[shreds.len() - 1]));
        assert(v.after_shred(shreds.last()) =~= v);
    }
}

impl IngestView {
    /// A run of the erasure set `key` that can be handed on ends at `end`.
    pub open spec fn run_ends(self, key: (u64, u32), end: int) -> bool {
        exists|start: int| #[trigger] self.run_at(key, start, end)
    }

    /// The state after a walk, from where `walk` has come, over the runs of
    /// the touched erasure sets, and the runs that were handed on: the slot,
    /// the first and the last index. `decodes` says of payloads whether they
    /// reassemble and decode; a run is handed on if its payloads do.
    pub open spec fn emitted(self, walk: WalkView, decodes: spec_fn(Seq<Seq<u8>>) -> bool) -> (
        IngestView,
        Seq<(u64, int, int)>,
    )
        decreases self.touched.len() - walk.position, MAX_DATA_SHREDS_PER_SLOT - walk.index,
    {
        let end = walk.index as int;
        let on = WalkView { index: walk.index + 1, ..walk };
        if walk.position >= self.touched.len() {
            (self, Seq::empty())
        } else if walk.index >= MAX_DATA_SHREDS_PER_SLOT {
            self.emitted((WalkView { position: walk.position + 1, index: 0 }), decodes)
        } else {
            let key = self.touched[walk.position as int];
            let start = choose|start: int| #[trigger] self.run_at(key, start, end);
            if self.run_ends(key, end) && decodes(self.payloads(key.0, start, end)) {
                let (after, runs) = self.after_handing_on(key.0, start, end).emitted(on, decodes);
                (after, seq![(key.0, start, end)] + runs)
            } else {
                self.emitted(on, decodes)
            }
        }
    }
}

/// After a walk no run is left of those that it looked at but such as do not
/// decode; it brings no run about, and changes no payload.
pub proof fn law_walk_leaves_no_run_that_decodes(
    v: IngestView,
    walk: WalkView,
    decodes: spec_fn(Seq<Seq<u8>>) -> bool,
)
    requires
        v.wf(),
    ensures
        ({
            let w = v.emitted(walk, decodes).0;
            &&& w.wf()
            &&& w.touched == v.touched
            &&& forall|key: (u64, u32), start: int, end: int| #[trigger]
                w.run_at(key, start, end) ==> v.run_at(key, start, end) && w.payloads(
                    key.0,
                    start,
                    end,
                ) == v.payloads(key.0, start, end)
            &&& forall|p: int, start: int, end: int|
                walk.ahead(p, end) && p < v.touched.len() && #[trigger] w.run_at(
                    v.touched[p],
                    start,
                    end,
                ) ==> !decodes(w.payloads(v.touched[p].0, start, end))
        }),
    decreases v.touched.len() - walk.position, MAX_DATA_SHREDS_PER_SLOT - walk.index,
{
    let at = walk.index as int;
    let on = WalkView { index: walk.index + 1, ..walk };
    if walk.position >= v.touched.len() {
    } else if walk.index >= MAX_DATA_SHREDS_PER_SLOT {
        let next = WalkView { position: walk.position + 1, index: 0 };
        law_walk_leaves_no_run_that_decodes(v, next, decodes);
        let w = v.emitted(walk, decodes).0;
        assert forall|p: int, start: int, end: int|
            walk.ahead(p, end) && p < v.touched.len() && #[trigger] w.run_at(
                v.touched[p],
                start,
                end,
            ) implies !decodes(w.payloads(v.touched[p].0, start, end)) by {
            if !next.ahead(p, end) {
                assert(v.run_at(v.touched[p], start, end));
                assert(v.slots[v.touched[p].0].wf(v.touched[p].0));
            }
        }
    } else {
        let key = v.touched[walk.position as int];
        let s0 = choose|start: int| #[trigger] v.run_at(key, start, at);
        let w = v.emitted(walk, decodes).0;
        if v.run_ends(key, at) && decodes(v.payloads(key.0, s0, at)) {
            let u = v.after_handing_on(key.0, s0, at);
            crate::model::law_handing_on_keeps_wf(v, key.0, s0, at);
            law_walk_leaves_no_run_that_decodes(u, on, decodes);
            assert forall|k: (u64, u32), start: int, end: int| #[trigger]
                w.run_at(k, start, end) implies v.run_at(k, start, end) && w.payloads(
                k.0,
                start,
                end,
            ) == v.payloads(k.0, start, end) by {
                assert(u.run_at(k, start, end));
                law_handing_on_adds_no_run(v, key.0, s0, at, k, start, end);
            }
            assert forall|p: int, start: int, end: int|
                walk.ahead(p, end) && p < v.touched.len() && #[trigger] w.run_at(
                    v.touched[p],
                    start,
                    end,
                ) implies !decodes(w.payloads(v.touched[p].0, start, end)) by {
                if !on.ahead(p, end) {
                    assert(u.run_at(key, start, at));
                    assert(v.run_at(key, s0, at));
                    law_shreds_are_handed_on_once(v, key.0, s0, at, start, at);
                }
            }
        } else {
            law_walk_leaves_no_run_that_decodes(v, on, decodes);
            assert forall|p: int, start: int, end: int|
                walk.ahead(p, end) && p < v.touched.len() && #[trigger] w.run_at(
                    v.touched[p],
                    start,
                    end,
                ) implies !decodes(w.payloads(v.touched[p].0, start, end)) by {
                if !on.ahead(p, end) {
                    assert(v.run_at(key, start, at));
                    assert(v.run_ends(key, at));
                    assert(v.run_at(key, s0, at));
                    crate::state::law_whole_run_unique(v.slots[key.0].tracker, start, s0, at);
                }
            }
        }
    }
}

/// A walk goes on from the next run that it finds: that of the erasure set at
/// the place `p` which ends at `end`, with none before it. It hands the run on
/// if it decodes, and goes on behind it.
pub proof fn law_walk_goes_on_from_the_next_run(
    v: IngestView,
    walk: WalkView,
    p: int,
    start: int,
    end: int,
    decodes: spec_fn(Seq<Seq<u8>>) -> bool,
)
    requires
        v.wf(),
        walk.ahead(p, end),
        p < v.touched.len(),
        v.run_at(v.touched[p], start, end),
        forall|q: int, s: int, e: int|
            walk.ahead(q, e) && (q < p || (q == p && e < end)) ==> !#[trigger] v.run_at(
                v.touched[q],
                s,
                e,
            ),
    ensures
        ({
            let key = v.touched[p];
            let behind = WalkView { position: p as nat, index: (end + 1) as nat };
            if decodes(v.payloads(key.0, start, end)) {
                let (after, runs) = v.after_handing_on(key.0, start, end).emitted(behind, decodes);
                v.emitted(walk, decodes) == (after, seq![(key.0, start, end)] + runs)
            } else {
                v.emitted(walk, decodes) == v.emitted(behind, decodes)
            }
        }),
    decreases v.touched.len() - walk.position, MAX_DATA_SHREDS_PER_SLOT - walk.index,
{
    let key = v.touched[p];
    assert(v.slots[key.0].wf(key.0));
    if walk.position == p && walk.index == end {
        assert(v.run_ends(key, end));
        let s0 = choose|s: int| #[trigger] v.run_at(key, s, end);
        crate::state::law_whole_run_unique(v.slots[key.0].tracker, s0, start, end);
    } else if walk.index >= MAX_DATA_SHREDS_PER_SLOT {
        law_walk_goes_on_from_the_next_run(
            v,
            (WalkView { position: walk.position + 1, index: 0 }),
            p,
            start,
            end,
            decodes,
        );
    } else {
        let k = v.touched[walk.position as int];
        assert(!v.run_ends(k, walk.index as int)) by {
            if v.run_ends(k, walk.index as int) {
                let s = choose|s: int| #[trigger] v.run_at(k, s, walk.index as int);
                assert(!v.run_at(v.touched[walk.position as int], s, walk.index as int));
            }
        }
        law_walk_goes_on_from_the_next_run(
            v,
            (WalkView { index: walk.index + 1, ..walk }),
            p,
            start,
            end,
            decodes,
        );
    }
}

/// Where no run is left but such as do not decode, a walk hands on nothing and
/// changes nothing.
pub proof fn law_walk_without_runs(
    v: IngestView,
    walk: WalkView,
    decodes: spec_fn(Seq<Seq<u8>>) -> bool,
)
    requires
        forall|p: int, start: int, end: int|
            walk.ahead(p, end) && p < v.touched.len() && #[trigger] v.run_at(
                v.touched[p],
                start,
                end,
            ) ==> !decodes(v.payloads(v.touched[p].0, start, end)),
    ensures
        v.emitted(walk, decodes) == (v, Seq::<(u64, int, int)>::empty()),
    decreases v.touched.len() - walk.position, MAX_DATA_SHREDS_PER_SLOT - walk.index,
{
    if walk.position >= v.touched.len() {
    } else if walk.index >= MAX_DATA_SHREDS_PER_SLOT {
        law_walk_without_runs(v, (WalkView { position: walk.position + 1, index: 0 }), decodes);
    } else {
        let key = v.touched[walk.position as int];
        let start = choose|start: int| #[trigger] v.run_at(key, start, walk.index as int);
        if v.run_ends(key, walk.index as int) {
            assert(v.run_at(v.touched[walk.position as int], start, walk.index as int));
        }
        law_walk_without_runs(v, (WalkView { index: walk.index + 1, ..walk }), decodes);
    }
}

/// A second walk over the runs of the same erasure sets hands on nothing and
/// changes nothing: what it still finds are runs that do not decode.
pub proof fn law_second_walk_hands_on_nothing(
    v: IngestView,
    decodes: spec_fn(Seq<Seq<u8>>) -> bool,
)
    requires
        v.wf(),
    ensures
        ({
            let begin = WalkView { position: 0, index: 0 };
            let w = v.emitted(begin, decodes).0;
            &&& w.emitted(begin, decodes) == (w, Seq::<(u64, int, int)>::empty())
            &&& forall|p: int, start: int, end: int|
                0 <= p < w.touched.len() && #[trigger] w.run_at(w.touched[p], start, end)
                    ==> !decodes(w.payloads(w.touched[p].0, start, end))
        }),
{
    let begin = WalkView { position: 0, index: 0 };
    let w = v.emitted(begin, decodes).0;
    law_walk_leaves_no_run_that_decodes(v, begin, decodes);
    law_walk_without_runs(w, begin, decodes);
    assert forall|p: int, start: int, end: int|
        0 <= p < w.touched.len() && #[trigger] w.run_at(w.touched[p], start, end) implies !decodes(
        w.payloads(w.touched[p].0, start, end),
    ) by {
        assert(begin.ahead(p, end));
    }
}

/// Every run of a touched erasure set whose payloads decode has been handed on
/// after a walk.
pub proof fn law_every_run_is_handed_on(
    v: IngestView,
    decodes: spec_fn(Seq<Seq<u8>>) -> bool,
    p: int,
    start: int,
    end: int,
)
    requires
        v.wf(),
        0 <= p < v.touched.len(),
        v.run_at(v.touched[p], start, end),
        decodes(v.payloads(v.touched[p].0, start, end)),
    ensures
        !v.emitted((WalkView { position: 0, index: 0 }), decodes).0.run_at(
            v.touched[p],
            start,
            end,
        ),
        v.emitted((WalkView { position: 0, index: 0 }), decodes).1.contains(
            (v.touched[p].0, start, end),
        ),
{
    let begin = WalkView { position: 0, index: 0 };
    law_walk_leaves_no_run_that_decodes(v, begin, decodes);
    let w = v.emitted(begin, decodes).0;
    if w.run_at(v.touched[p], start, end) {
        assert(begin.ahead(p, end));
    }
    lemma_walk_hands_on(v, begin, decodes, v.touched[p], start, end);
}

/// A run that is gone after a walk was handed on in it.
proof fn lemma_walk_hands_on(
    v: IngestView,
    walk: WalkView,
    decodes: spec_fn(Seq<Seq<u8>>) -> bool,
    key: (u64, u32),
    start: int,
    end: int,
)
    requires
        v.wf(),
        v.run_at(key, start, end),
        !v.emitted(walk, decodes).0.run_at(key, start, end),
    ensures
        v.emitted(walk, decodes).1.contains((key.0, start, end)),
    decreases v.touched.len() - walk.position, MAX_DATA_SHREDS_PER_SLOT - walk.index,
{
    let at = walk.index as int;
    let on = WalkView { index: walk.index + 1, ..walk };
    if walk.position >= v.touched.len() {
    } else if walk.index >= MAX_DATA_SHREDS_PER_SLOT {
        lemma_walk_hands_on(
            v,
            (WalkView { position: walk.position + 1, index: 0 }),
            decodes,
            key,
            start,
            end,
        );
    } else {
        let k = v.touched[walk.position as int];
        let s0 = choose|s: int| #[trigger] v.run_at(k, s, at);
        if v.run_ends(k, at) && decodes(v.payloads(k.0, s0, at)) {
            let u = v.after_handing_on(k.0, s0, at);
            let (after, runs) = u.emitted(on, decodes);
            let all = seq![(k.0, s0, at)] + runs;
            assert(v.emitted(walk, decodes) == (after, all));
            crate::model::law_handing_on_keeps_wf(v, k.0, s0, at);
            assert(v.run_at(k, s0, at));
            if k.0 == key.0 && s0 == start && at == end {
                assert(all[0] == (key.0, start, end));
            } else {
                assert(u.run_at(key, start, end)) by {
                    lemma_other_run_stays(v, k, s0, at, key, start, end);
                }
                lemma_walk_hands_on(u, on, decodes, key, start, end);
                let i = choose|i: int| 0 <= i < runs.len() && runs[i] == (key.0, start, end);
                assert(all[i + 1] == (key.0, start, end));
            }
        } else {
            lemma_walk_hands_on(v, on, decodes, key, start, end);
        }
    }
}

/// Handing on one run leaves every other that can be handed on.
proof fn lemma_other_run_stays(
    v: IngestView,
    k: (u64, u32),
    s0: int,
    e0: int,
    key: (u64, u32),
    start: int,
    end: int,
)
    requires
        v.wf(),
        v.run_at(k, s0, e0),
        v.run_at(key, start, end),
        (k.0, s0, e0) != (key.0, start, end),
    ensures
        v.after_handing_on(k.0, s0, e0).run_at(key, start, end),
{
    let w = v.after_handing_on(k.0, s0, e0);
    assert(v.slots[key.0].wf(key.0));
    if k.0 == key.0 {
        let a = v.slots[key.0].tracker;
        let b = w.slots[key.0].tracker;
        assert(e0 < start || end < s0) by {
            if s0 <= end && start <= e0 {
                if e0 < end {
                    assert(a.data_status[e0] is DataComplete);
                } else if end < e0 {
                    assert(a.data_status[end] is DataComplete);
                } else {
                    crate::state::law_whole_run_unique(a, s0, start, end);
                }
            }
        }
        assert forall|j: int| start <= j <= end implies !#[trigger] b.already_deshredded[j] by {
            assert(!a.already_deshredded[j]);
        }
        assert(b.whole_run(start, end));
        if a.set_reaches(key.1 as int, start, end) {
            let i = choose|i: int|
                start <= i <= end && i < a.data_shreds.len() && (
                #[trigger] a.data_shreds[i] matches Some(x) && x.fec_set_index() == key.1);
            assert(b.data_shreds[i] == a.data_shreds[i]);
            assert(b.set_reaches(key.1 as int, start, end));
        }
    }
}

/// In the order in which a recovery takes shreds, no coding shred comes
/// before a data shred, and shreds of one type ascend by index.
pub proof fn law_recovery_order(before: Seq<ShredView>, after: Seq<ShredView>, i: int, j: int)
    requires
        in_recovery_order(before, after),
        0 <= i <= j < after.len(),
    ensures
        after[i] is ShredCode ==> after[j] is ShredCode,
        after[i].shred_type() == after[j].shred_type() ==> after[i].index() <= after[j].index(),
{
    assert(crate::fec_set::pair_le(recovery_rank(after[i]), recovery_rank(after[j])));
}

/// Every coding shred among `set` says that the set has `n` data and `c`
/// coding shreds.
pub open spec fn coding_shreds_say(set: Seq<ShredView>, n: u16, c: u16) -> bool {
    forall|i: int|
        0 <= i < set.len() ==> ((#[trigger] set[i]) matches ShredView::ShredCode(s)
            ==> s.coding_header.num_data_shreds == n && s.coding_header.num_coding_shreds == c)
}

/// There is a coding shred among `set`.
pub open spec fn has_code(set: Seq<ShredView>) -> bool {
    exists|i: int| 0 <= i < set.len() && (#[trigger] set[i]) is ShredCode
}

/// Where the coding shreds of a set agree, what they say is taken, whatever
/// the order of the shreds.
pub proof fn law_agreeing_coding_shreds_decide(set: Seq<ShredView>, n: u16, c: u16)
    requires
        coding_shreds_say(set, n, c),
        n != 0,
        has_code(set),
    ensures
        expected_data_shreds(set) == n,
        expected_coding_shreds(set) == c,
    decreases set.len(),
{
    let front = set.drop_last();
    assert(coding_shreds_say(front, n, c)) by {
        assert forall|i: int| 0 <= i < front.len() implies ((
        #[trigger] front[i]) matches ShredView::ShredCode(s) ==> s.coding_header.num_data_shreds
            == n && s.coding_header.num_coding_shreds == c) by {
            assert(front[i] == set[i]);
        }
    }
    if set.last() is ShredData {
        let i = choose|i: int| 0 <= i < set.len() && (#[trigger] set[i]) is ShredCode;
        assert(front[i] is ShredCode);
        law_agreeing_coding_shreds_decide(front, n, c);
    } else {
        assert(set[set.len() - 1] is ShredCode);
    }
}

/// Without coding shreds, the data shreds that end a run decide where they
/// agree, whatever the order of the shreds.
pub proof fn law_agreeing_run_ends_decide(set: Seq<ShredView>, n: u16)
    requires
        !has_code(set),
        forall|i: int|
            0 <= i < set.len() && (#[trigger] set[i]).ends_run() ==> span_to(set[i]) == n,
        n != 0,
    ensures
        expected_data_shreds(set) == if exists|i: int|
            0 <= i < set.len() && (#[trigger] set[i]).ends_run() {
            n
        } else {
            0
        },
        expected_coding_shreds(set) == 0,
    decreases set.len(),
{
    if set.len() > 0 {
        let front = set.drop_last();
        assert(!(set[set.len() - 1] is ShredCode));
        assert forall|i: int| 0 <= i < front.len() implies !((#[trigger] front[i]) is ShredCode) by {
            assert(front[i] == set[i]);
        }
        assert forall|i: int| 0 <= i < front.len() && (#[trigger] front[i]).ends_run() implies
            span_to(front[i]) == n by {
            assert(front[i] == set[i]);
        }
        law_agreeing_run_ends_decide(front, n);
        if exists|i: int| 0 <= i < front.len() && (#[trigger] front[i]).ends_run() {
            let i = choose|i: int| 0 <= i < front.len() && (#[trigger] front[i]).ends_run();
            assert(set[i].ends_run());
        }
        if set.last().ends_run() {
            assert(set[set.len() - 1].ends_run());
        }
        if exists|i: int| 0 <= i < set.len() && (#[trigger] set[i]).ends_run() {
            let i = choose|i: int| 0 <= i < set.len() && (#[trigger] set[i]).ends_run();
            if i < front.len() {
                assert(front[i].ends_run());
            }
        }
    }
}

/// How many elements a filter keeps does not depend on their order.
proof fn lemma_filter_len_by_multiset(s: Seq<ShredView>, p: spec_fn(ShredView) -> bool)
    ensures
        s.filter(p).len() == s.to_multiset().filter(p).len(),
    decreases s.len(),
{
    broadcast use vstd::multiset::group_multiset_axioms;

    reveal(Seq::filter);
    s.to_multiset_ensures();
    if s.len() == 0 {
        assert(s.to_multiset() =~= vstd::multiset::Multiset::empty());
        assert(s.to_multiset().filter(p) =~= vstd::multiset::Multiset::empty());
    } else {
        let front = s.drop_last();
        lemma_filter_len_by_multiset(front, p);
        front.to_multiset_ensures();
        assert(s =~= front.push(s.last()));
        let m = front.to_multiset();
        assert(s.to_multiset() =~= m.insert(s.last()));
        if p(s.last()) {
            assert(m.insert(s.last()).filter(p) =~= m.filter(p).insert(s.last()));
        } else {
            assert(m.insert(s.last()).filter(p) =~= m.filter(p));
        }
    }
}

/// What is found out about an erasure set does not depend on the order in
/// which its shreds came in, given that its coding shreds agree and there is
/// one.
pub proof fn law_set_info_ignores_order(a: Seq<ShredView>, b: Seq<ShredView>, n: u16, c: u16)
    requires
        a.to_multiset() == b.to_multiset(),
        coding_shreds_say(a, n, c),
        n != 0,
        has_code(a),
    ensures
        data_shred_info(a) == data_shred_info(b),
{
    let is_data = |s: ShredView| s is ShredData;
    let is_code = |s: ShredView| s is ShredCode;
    lemma_filter_len_by_multiset(a, is_data);
    lemma_filter_len_by_multiset(b, is_data);
    lemma_filter_len_by_multiset(a, is_code);
    lemma_filter_len_by_multiset(b, is_code);
    assert(data_shreds_of(a).len() == data_shreds_of(b).len());
    assert(code_shreds_of(a).len() == code_shreds_of(b).len());
    a.to_multiset_ensures();
    b.to_multiset_ensures();
    assert forall|x: ShredView| a.contains(x) <==> b.contains(x) by {
        assert(a.contains(x) <==> a.to_multiset().count(x) > 0);
        assert(b.contains(x) <==> b.to_multiset().count(x) > 0);
    }
    assert forall|i: int| 0 <= i < b.len() implies ((
    #[trigger] b[i]) matches ShredView::ShredCode(s) ==> s.coding_header.num_data_shreds == n
        && s.coding_header.num_coding_shreds == c) by {
        assert(b.contains(b[i]));
        assert(a.contains(b[i]));
        let k = choose|k: int| 0 <= k < a.len() && a[k] == b[i];
        assert(a[k] == b[i]);
    }
    let i = choose|i: int| 0 <= i < a.len() && (#[trigger] a[i]) is ShredCode;
    assert(a.contains(a[i]));
    assert(b.contains(a[i]));
    let k = choose|k: int| 0 <= k < b.len() && b[k] == a[i];
    assert(b[k] is ShredCode);
    law_agreeing_coding_shreds_decide(a, n, c);
    law_agreeing_coding_shreds_decide(b, n, c);
}

} // verus!
