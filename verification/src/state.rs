//! What is known of one slot: which data shreds have arrived, which runs of
//! them have been handed on, and which erasure sets are done.
use vstd::prelude::*;

use crate::fec_set::views_of;
use crate::shred::{Shred, ShredType, ShredView, MAX_DATA_SHREDS_PER_SLOT};

verus! {

/// What has been learnt of the data shred at one index.
#[derive(Debug, Copy, Clone, PartialEq, Eq, Structural)]
pub enum ShredStatus {
    /// No data shred with this index has arrived.
    Unknown,
    /// The shred is here, and the run of entries goes on behind it.
    NotDataComplete,
    /// The shred is here and ends a run of entries.
    DataComplete,
}

impl Default for ShredStatus {
    fn default() -> (status: Self)
        ensures
            status is Unknown,
    {
        ShredStatus::Unknown
    }
}

/// The tables of one slot. The first, second and fourth are indexed by shred
/// index, the third and fifth by erasure set index.
#[derive(Debug)]
pub struct ShredsStateTracker {
    pub data_status: Vec<ShredStatus>,
    pub data_shreds: Vec<Option<Shred>>,
    pub already_recovered_fec_sets: Vec<bool>,
    pub already_deshredded: Vec<bool>,
    pub recovery_in_flight: Vec<bool>,
}

/// The value of a [`ShredsStateTracker`].
#[verifier::ext_equal]
pub struct TrackerView {
    pub data_status: Seq<ShredStatus>,
    pub data_shreds: Seq<Option<ShredView>>,
    pub already_recovered_fec_sets: Seq<bool>,
    pub already_deshredded: Seq<bool>,
    pub recovery_in_flight: Seq<bool>,
}

/// The value of a place that may hold a shred.
pub open spec fn shred_option_view(shred: Option<Shred>) -> Option<ShredView> {
    match shred {
        Some(s) => Some(s@),
        None => None,
    }
}

impl View for ShredsStateTracker {
    type V = TrackerView;

    open spec fn view(&self) -> TrackerView {
        TrackerView {
            data_status: self.data_status@,
            data_shreds: self.data_shreds@.map_values(|s: Option<Shred>| shred_option_view(s)),
            already_recovered_fec_sets: self.already_recovered_fec_sets@,
            already_deshredded: self.already_deshredded@,
            recovery_in_flight: self.recovery_in_flight@,
        }
    }
}

/// The status that a data shred gives its index.
pub open spec fn status_of(shred: ShredView) -> ShredStatus {
    if shred.ends_run() {
        ShredStatus::DataComplete
    } else {
        ShredStatus::NotDataComplete
    }
}

impl TrackerView {
    /// The tables of a slot of which nothing has been seen.
    pub open spec fn empty() -> TrackerView {
        let n = MAX_DATA_SHREDS_PER_SLOT as nat;
        TrackerView {
            data_status: Seq::new(n, |i: int| ShredStatus::Unknown),
            data_shreds: Seq::new(n, |i: int| None),
            already_recovered_fec_sets: Seq::new(n, |i: int| false),
            already_deshredded: Seq::new(n, |i: int| false),
            recovery_in_flight: Seq::new(n, |i: int| false),
        }
    }

    /// Every table has a place for every index.
    pub open spec fn sized(self) -> bool {
        &&& self.data_status.len() == MAX_DATA_SHREDS_PER_SLOT
        &&& self.data_shreds.len() == MAX_DATA_SHREDS_PER_SLOT
        &&& self.already_recovered_fec_sets.len() == MAX_DATA_SHREDS_PER_SLOT
        &&& self.already_deshredded.len() == MAX_DATA_SHREDS_PER_SLOT
        &&& self.recovery_in_flight.len() == MAX_DATA_SHREDS_PER_SLOT
    }

    /// The place `i` of the first two tables: no status without a shred, and
    /// a shred lies at its own index with its own status.
    pub open spec fn consistent_at(self, i: int) -> bool {
        match self.data_shreds[i] {
            None => self.data_status[i] is Unknown,
            Some(s) => {
                &&& s is ShredData
                &&& s.index() == i
                &&& s.fec_set_index() < MAX_DATA_SHREDS_PER_SLOT
                &&& self.data_status[i] == status_of(s)
            },
        }
    }

    /// The tables of a slot agree with one another.
    pub open spec fn wf(self) -> bool {
        &&& self.sized()
        &&& forall|i: int|
            0 <= i < MAX_DATA_SHREDS_PER_SLOT ==> #[trigger] self.consistent_at(i)
    }

    /// Offering `shred` reads the tables inside their bounds only: at its set
    /// index, and, for a data shred of a set that is not done, at its index.
    pub open spec fn addresses(self, shred: ShredView) -> bool {
        &&& shred.fec_set_index() < MAX_DATA_SHREDS_PER_SLOT
        &&& shred is ShredData
            && !self.already_recovered_fec_sets[shred.fec_set_index() as int]
            ==> shred.index() < MAX_DATA_SHREDS_PER_SLOT
    }

    /// Nothing is known of the data shred at the index `i`.
    pub open spec fn vacant(self, i: int) -> bool {
        self.data_shreds[i] is None && self.data_status[i] is Unknown
    }

    /// There is still a use for `shred`: its erasure set is not done, and, if
    /// it is a data shred, nothing is known of its index yet.
    pub open spec fn admits(self, shred: ShredView) -> bool {
        &&& !self.already_recovered_fec_sets[shred.fec_set_index() as int]
        &&& shred is ShredData ==> self.vacant(shred.index() as int)
    }

    /// The tables once `shred` has been entered. A coding shred leaves no
    /// trace in them.
    pub open spec fn recorded(self, shred: ShredView) -> TrackerView {
        if shred is ShredData {
            TrackerView {
                data_status: self.data_status.update(shred.index() as int, status_of(shred)),
                data_shreds: self.data_shreds.update(shred.index() as int, Some(shred)),
                ..self
            }
        } else {
            self
        }
    }

    /// The tables after `shred` was offered to them.
    pub open spec fn offered(self, shred: ShredView) -> TrackerView {
        if self.admits(shred) {
            self.recorded(shred)
        } else {
            self
        }
    }
}

impl TrackerView {
    /// The tables after some shreds were offered, one after the other.
    pub open spec fn offered_all(self, shreds: Seq<ShredView>) -> TrackerView
        decreases shreds.len(),
    {
        if shreds.len() == 0 {
            self
        } else {
            self.offered_all(shreds.drop_last()).offered(shreds.last())
        }
    }

    /// How many of those shreds there was a use for.
    pub open spec fn admitted(self, shreds: Seq<ShredView>) -> nat
        decreases shreds.len(),
    {
        if shreds.len() == 0 {
            0
        } else {
            let before = self.admitted(shreds.drop_last());
            if self.offered_all(shreds.drop_last()).admits(shreds.last()) {
                before + 1
            } else {
                before
            }
        }
    }

    /// The tables can be read at the indexes of all of `shreds`.
    pub open spec fn addresses_all(self, shreds: Seq<ShredView>) -> bool {
        forall|i: int| 0 <= i < shreds.len() ==> self.addresses(#[trigger] shreds[i])
    }
}

impl Default for ShredsStateTracker {
    fn default() -> (tracker: Self)
        ensures
            tracker@ == TrackerView::empty(),
            tracker@.wf(),
    {
        let tracker = ShredsStateTracker {
            data_status: vec![ShredStatus::Unknown; MAX_DATA_SHREDS_PER_SLOT],
            data_shreds: vec![None; MAX_DATA_SHREDS_PER_SLOT],
            already_recovered_fec_sets: vec![false; MAX_DATA_SHREDS_PER_SLOT],
            already_deshredded: vec![false; MAX_DATA_SHREDS_PER_SLOT],
            recovery_in_flight: vec![false; MAX_DATA_SHREDS_PER_SLOT],
        };
        assert(tracker@ =~= TrackerView::empty());
        tracker
    }
}

/// Whether the tables can be read at the indexes of a shred offered to them.
pub fn can_offer(tracker: &ShredsStateTracker, shred: &Shred) -> (r: bool)
    requires
        tracker@.sized(),
    ensures
        r == tracker@.addresses(shred@),
{
    let fec_set_index: usize = shred.fec_set_index() as usize;
    if fec_set_index >= MAX_DATA_SHREDS_PER_SLOT {
        return false;
    }
    match shred.shred_type() {
        ShredType::Code => true,
        ShredType::Data => tracker.already_recovered_fec_sets[fec_set_index] || (
        shred.index() as usize) < MAX_DATA_SHREDS_PER_SLOT,
    }
}

/// Enters a shred in its slot's tables, whether or not there is a use for it.
pub(crate) fn record_shred(shred: &Shred, state_tracker: &mut ShredsStateTracker)
    requires
        old(state_tracker)@.sized(),
        shred@ is ShredData ==> shred@.index() < MAX_DATA_SHREDS_PER_SLOT,
    ensures
        final(state_tracker)@ == old(state_tracker)@.recorded(shred@),
{
    if let Shred::ShredData(s) = shred {
        let index: usize = shred.index() as usize;
        state_tracker.data_shreds[index] = Some(shred.clone());
        if s.data_complete || s.last_in_slot {
            state_tracker.data_status[index] = ShredStatus::DataComplete;
        } else {
            state_tracker.data_status[index] = ShredStatus::NotDataComplete;
        }
    }
    assert(state_tracker@ =~= old(state_tracker)@.recorded(shred@));
}

/// Whether nothing is known of the data shred at an index.
pub(crate) fn is_vacant(tracker: &ShredsStateTracker, index: usize) -> (r: bool)
    requires
        tracker@.sized(),
        index < MAX_DATA_SHREDS_PER_SLOT,
    ensures
        r == tracker@.vacant(index as int),
{
    assert(tracker@.data_shreds[index as int] == shred_option_view(
        tracker.data_shreds@[index as int],
    ));
    tracker.data_shreds[index].is_none() && matches!(
        tracker.data_status[index],
        ShredStatus::Unknown
    )
}

/// Enters a shred in its slot's tables. Returns the shred's index, or `None`
/// where there is no use for the shred any more.
pub fn update_state_tracker(shred: &Shred, state_tracker: &mut ShredsStateTracker) -> (r: Option<
    usize,
>)
    requires
        old(state_tracker)@.sized(),
        old(state_tracker)@.addresses(shred@),
    ensures
        final(state_tracker)@ == old(state_tracker)@.offered(shred@),
        r == if old(state_tracker)@.admits(shred@) {
            Some(shred@.index() as usize)
        } else {
            None
        },
        old(state_tracker)@.wf() ==> final(state_tracker)@.wf(),
{
    let index: usize = shred.index() as usize;
    if state_tracker.already_recovered_fec_sets[shred.fec_set_index() as usize] {
        return None;
    }
    if shred.shred_type() == ShredType::Data && !is_vacant(state_tracker, index) {
        return None;
    }
    record_shred(shred, state_tracker);
    proof {
        law_recording_keeps_wf(old(state_tracker)@, shred@);
    }
    Some(index)
}

/// Entering a shred in tables that agree, or offering it to them, leaves
/// tables that agree.
pub proof fn law_recording_keeps_wf(t: TrackerView, shred: ShredView)
    requires
        t.sized(),
        t.addresses(shred),
    ensures
        t.offered(shred).sized(),
        t.wf() ==> t.offered(shred).wf(),
        t.wf() && shred.in_range() ==> t.recorded(shred).wf(),
{
    if t.wf() && shred.in_range() {
        assert forall|i: int| 0 <= i < MAX_DATA_SHREDS_PER_SLOT implies #[trigger] t.recorded(
            shred,
        ).consistent_at(i) by {
            assert(t.consistent_at(i));
        }
    }
    if t.wf() {
        assert forall|i: int| 0 <= i < MAX_DATA_SHREDS_PER_SLOT implies #[trigger] t.offered(
            shred,
        ).consistent_at(i) by {
            assert(t.consistent_at(i));
        }
    }
}

/// What offering shreds leaves alone: which sets are done, what has been
/// handed on, what is being recovered, and every shred already there. Tables
/// that agree stay so.
pub proof fn law_offering_only_adds(t: TrackerView, shreds: Seq<ShredView>)
    requires
        t.sized(),
        t.addresses_all(shreds),
    ensures
        t.offered_all(shreds).sized(),
        t.wf() ==> t.offered_all(shreds).wf(),
        t.offered_all(shreds).already_recovered_fec_sets == t.already_recovered_fec_sets,
        t.offered_all(shreds).already_deshredded == t.already_deshredded,
        t.offered_all(shreds).recovery_in_flight == t.recovery_in_flight,
        forall|i: int|
            0 <= i < MAX_DATA_SHREDS_PER_SLOT && t.data_shreds[i] is Some ==> {
                &&& (#[trigger] t.offered_all(shreds).data_shreds[i]) == t.data_shreds[i]
                &&& t.offered_all(shreds).data_status[i] == t.data_status[i]
            },
        t.admitted(shreds) <= shreds.len(),
    decreases shreds.len(),
{
    if shreds.len() > 0 {
        let front = shreds.drop_last();
        assert(t.addresses_all(front)) by {
            assert forall|i: int| 0 <= i < front.len() implies t.addresses(
                #[trigger] front[i],
            ) by {
                assert(front[i] == shreds[i]);
            }
        }
        law_offering_only_adds(t, front);
        let mid = t.offered_all(front);
        assert(t.addresses(shreds[shreds.len() - 1]));
        assert(mid.addresses(shreds.last()));
        law_recording_keeps_wf(mid, shreds.last());
    }
}

/// A shred is recorded once: offered again, it is of no use.
pub proof fn law_shred_recorded_once(t: TrackerView, shred: ShredView)
    requires
        t.sized(),
        t.addresses(shred),
        shred is ShredData,
    ensures
        !t.offered(shred).admits(shred),
{
}

/// Offers shreds to a slot's tables, one after the other. Returns how many of
/// them there was a use for.
pub fn offer_all(shreds: &Vec<Shred>, tracker: &mut ShredsStateTracker) -> (used: u64)
    requires
        old(tracker)@.sized(),
        old(tracker)@.addresses_all(views_of(shreds@)),
    ensures
        final(tracker)@ == old(tracker)@.offered_all(views_of(shreds@)),
        used == old(tracker)@.admitted(views_of(shreds@)),
        old(tracker)@.wf() ==> final(tracker)@.wf(),
{
    let ghost all = views_of(shreds@);
    let ghost before = tracker@;
    let mut used: u64 = 0;
    let mut i: usize = 0;
    assert(all.take(0) =~= Seq::empty());
    while i < shreds.len()
        invariant
            i <= shreds.len(),
            all == views_of(shreds@),
            before.sized(),
            before.addresses_all(all),
            tracker@ == before.offered_all(all.take(i as int)),
            used == before.admitted(all.take(i as int)),
            used <= i,
        decreases shreds.len() - i,
    {
        proof {
            let seen = all.take(i as int);
            assert(all.take(i + 1).drop_last() =~= seen);
            assert(before.addresses(all[i as int]));
            assert(before.addresses_all(seen)) by {
                assert forall|j: int| 0 <= j < seen.len() implies before.addresses(
                    #[trigger] seen[j],
                ) by {
                    assert(seen[j] == all[j]);
                }
            }
            law_offering_only_adds(before, seen);
        }
        if update_state_tracker(&shreds[i], tracker).is_some() {
            used = used + 1;
        }
        i = i + 1;
    }
    proof {
        assert(all.take(i as int) =~= all);
        law_offering_only_adds(before, all);
    }
    used
}

impl TrackerView {
    /// The index `end` ends the run of entries that `index` lies in: the
    /// shreds from `index` up to it are here, it alone ends a run, and none
    /// of them has been handed on.
    pub open spec fn run_ends_at(self, index: int, end: int) -> bool {
        &&& index <= end < self.data_status.len()
        &&& self.data_status[end] is DataComplete
        &&& forall|j: int| index <= j < end ==> (#[trigger] self.data_status[j]) is NotDataComplete
        &&& forall|j: int| index <= j <= end ==> !#[trigger] self.already_deshredded[j]
    }

    /// The index `start` begins, as far as is known, the run of entries that
    /// `index` lies in: the shreds from it up to `index` are here, none of
    /// them ends a run or has been handed on, and before it lies no shred
    /// that would belong to the run.
    pub open spec fn run_starts_at(self, index: int, start: int) -> bool {
        &&& 0 <= start <= index
        &&& forall|j: int|
            start <= j < index ==> (#[trigger] self.data_status[j]) is NotDataComplete
        &&& forall|j: int| start <= j < index ==> !#[trigger] self.already_deshredded[j]
        &&& start > 0 ==> !(self.data_status[start - 1] is NotDataComplete)
    }

    /// `start..=end` is the run of entries that `index` lies in, and can be
    /// handed on.
    pub open spec fn is_run(self, index: int, start: int, end: int) -> bool {
        self.run_starts_at(index, start) && self.run_ends_at(index, end)
    }

    /// Nothing is known of the index before the run, so the run may begin
    /// earlier.
    pub open spec fn start_unknown(self, start: int) -> bool {
        start > 0 && self.data_status[start - 1] is Unknown
    }
}

/// Finds the run of entries around `index` that can be handed on: its first
/// and last index, and whether nothing is known of the index before it.
pub fn get_indexes(tracker: &ShredsStateTracker, index: usize) -> (r: Option<(usize, usize, bool)>)
    requires
        tracker@.sized(),
    ensures
        match r {
            Some((start, end, unknown_start)) => {
                &&& tracker@.is_run(index as int, start as int, end as int)
                &&& unknown_start == tracker@.start_unknown(start as int)
            },
            None => forall|start: int, end: int|
                !#[trigger] tracker@.is_run(index as int, start, end),
        },
{
    let ghost t = tracker@;
    if index >= tracker.data_status.len() {
        return None;
    }
    let mut end: usize = index;
    loop
        invariant_except_break
            index <= end <= tracker.data_status.len(),
            index < tracker.data_status.len(),
            t == tracker@,
            t.sized(),
            forall|j: int| index <= j < end ==> (#[trigger] t.data_status[j]) is NotDataComplete,
            forall|j: int| index <= j < end ==> !#[trigger] t.already_deshredded[j],
        ensures
            t.run_ends_at(index as int, end as int),
        decreases tracker.data_status.len() - end,
    {
        if end == tracker.data_status.len() {
            assert forall|s: int, e: int| !#[trigger] t.is_run(index as int, s, e) by {
                if t.is_run(index as int, s, e) {
                    assert(t.data_status[e] is DataComplete);
                }
            }
            return None;
        }
        if tracker.already_deshredded[end] {
            assert forall|s: int, e: int| !#[trigger] t.is_run(index as int, s, e) by {
                if t.is_run(index as int, s, e) {
                    assert(t.data_status[e] is DataComplete);
                    assert(t.already_deshredded[end as int]);
                }
            }
            return None;
        }
        match tracker.data_status[end] {
            ShredStatus::Unknown => {
                assert forall|s: int, e: int| !#[trigger] t.is_run(index as int, s, e) by {
                    if t.is_run(index as int, s, e) {
                        assert(t.data_status[e] is DataComplete);
                        assert(t.data_status[end as int] is Unknown);
                    }
                }
                return None;
            },
            ShredStatus::DataComplete => {
                break ;
            },
            ShredStatus::NotDataComplete => {
                end = end + 1;
            },
        }
    }
    let mut start: usize = index;
    while start > 0
        invariant
            start <= index <= end < tracker.data_status.len(),
            t == tracker@,
            t.sized(),
            t.run_ends_at(index as int, end as int),
            forall|j: int| start <= j < index ==> (#[trigger] t.data_status[j]) is NotDataComplete,
            forall|j: int| start <= j < index ==> !#[trigger] t.already_deshredded[j],
        decreases start,
    {
        let next: usize = start - 1;
        match tracker.data_status[next] {
            ShredStatus::NotDataComplete => {
                if tracker.already_deshredded[next] {
                    assert forall|s: int, e: int| !#[trigger] t.is_run(index as int, s, e) by {
                        if t.is_run(index as int, s, e) {
                            assert(t.already_deshredded[next as int]);
                            assert(s > next);
                            assert(t.data_status[s - 1] is NotDataComplete);
                        }
                    }
                    return None;
                }
                start = next;
            },
            ShredStatus::DataComplete => {
                return Some((start, end, false));
            },
            ShredStatus::Unknown => {
                return Some((start, end, true));
            },
        }
    }
    Some((0, end, false))
}

/// There is at most one run around an index.
pub proof fn law_run_unique(t: TrackerView, index: int, s1: int, e1: int, s2: int, e2: int)
    requires
        t.is_run(index, s1, e1),
        t.is_run(index, s2, e2),
    ensures
        s1 == s2,
        e1 == e2,
{
    assert(t.data_status[e1] is DataComplete && t.data_status[e2] is DataComplete);
    if s1 < s2 {
        assert(t.data_status[s2 - 1] is NotDataComplete);
    }
    if s2 < s1 {
        assert(t.data_status[s1 - 1] is NotDataComplete);
    }
}

/// Every shred of a run is here, in its place, and has not been handed on.
pub proof fn law_run_is_complete(t: TrackerView, index: int, start: int, end: int, i: int)
    requires
        t.wf(),
        t.is_run(index, start, end),
        start <= i <= end,
    ensures
        t.data_shreds[i] matches Some(s) && s is ShredData && s.index() == i && s.ends_run() == (i
            == end),
        !t.already_deshredded[i],
{
    assert(t.consistent_at(i));
    if i < index {
        assert(t.data_status[i] is NotDataComplete);
    } else if i < end {
        assert(t.data_status[i] is NotDataComplete);
    }
}

impl TrackerView {
    /// `start..=end` is a run of entries that can be handed on: its shreds are
    /// all here, only the last of them ends a run, none has been handed on,
    /// and before it lies no shred that would belong to it.
    pub open spec fn whole_run(self, start: int, end: int) -> bool {
        &&& 0 <= start <= end < self.data_status.len()
        &&& self.data_status[end] is DataComplete
        &&& forall|j: int| start <= j < end ==> (#[trigger] self.data_status[j]) is NotDataComplete
        &&& forall|j: int| start <= j <= end ==> !#[trigger] self.already_deshredded[j]
        &&& start > 0 ==> !(self.data_status[start - 1] is NotDataComplete)
    }

    /// The erasure set `f` has a data shred among the indexes
    /// `start..=end`.
    pub open spec fn set_reaches(self, f: int, start: int, end: int) -> bool {
        exists|i: int|
            start <= i <= end && i < self.data_shreds.len() && (
            #[trigger] self.data_shreds[i] matches Some(s) && s.fec_set_index() == f)
    }

    /// `start..=end` is a run that can be handed on, and one of the erasure
    /// set `f`: it holds the set's first index, or it is known to begin at
    /// `start` and the set has a data shred in it. While nothing is known of
    /// the index before it, a run that begins inside a set may be the end of a
    /// longer one, and waits.
    pub open spec fn run_of_set(self, f: int, start: int, end: int) -> bool {
        &&& self.whole_run(start, end)
        &&& start <= f <= end || (!self.start_unknown(start) && self.set_reaches(f, start, end))
    }
}

/// A run that can be handed on is the one found from each of its indexes, and
/// from no other.
pub proof fn law_complete_run_is_found(t: TrackerView, start: int, end: int, index: int)
    requires
        t.sized(),
    ensures
        t.is_run(index, start, end) <==> t.whole_run(start, end) && start <= index <= end,
{
}

/// There is at most one run that can be handed on with a given end.
pub proof fn law_whole_run_unique(t: TrackerView, s1: int, s2: int, end: int)
    requires
        t.whole_run(s1, end),
        t.whole_run(s2, end),
    ensures
        s1 == s2,
{
    if s1 < s2 {
        assert(t.data_status[s2 - 1] is NotDataComplete);
    }
    if s2 < s1 {
        assert(t.data_status[s1 - 1] is NotDataComplete);
    }
}

/// Whether an erasure set has a data shred among the indexes `start..=end`.
fn reaches(tracker: &ShredsStateTracker, fec_set_index: u32, start: usize, end: usize) -> (r: bool)
    requires
        tracker@.sized(),
        end < MAX_DATA_SHREDS_PER_SLOT,
    ensures
        r == tracker@.set_reaches(fec_set_index as int, start as int, end as int),
{
    let ghost t = tracker@;
    let mut i: usize = start;
    while i <= end
        invariant
            start <= i,
            end < MAX_DATA_SHREDS_PER_SLOT,
            t == tracker@,
            t.sized(),
            i <= end + 1 || i == start,
            forall|j: int|
                start <= j < i && j <= end ==> !(#[trigger] t.data_shreds[j] matches Some(s)
                    && s.fec_set_index() == fec_set_index),
        decreases end + 1 - i,
    {
        assert(t.data_shreds[i as int] == shred_option_view(tracker.data_shreds@[i as int]));
        if let Some(shred) = &tracker.data_shreds[i] {
            if shred.fec_set_index() == fec_set_index {
                return true;
            }
        }
        i = i + 1;
    }
    false
}

/// Finds a run of an erasure set that can be handed on: of those that end at
/// `from` or behind it, the one that ends first.
pub fn next_run(tracker: &ShredsStateTracker, fec_set_index: u32, from: usize) -> (r: Option<
    (usize, usize),
>)
    requires
        tracker@.sized(),
    ensures
        match r {
            Some((start, end)) => {
                &&& from <= end
                &&& tracker@.run_of_set(fec_set_index as int, start as int, end as int)
                &&& forall|s: int, e: int|
                    from <= e < end ==> !#[trigger] tracker@.run_of_set(fec_set_index as int, s, e)
            },
            None => forall|s: int, e: int|
                from <= e ==> !#[trigger] tracker@.run_of_set(fec_set_index as int, s, e),
        },
{
    let ghost t = tracker@;
    let ghost f = fec_set_index as int;
    let mut end: usize = from;
    while end < tracker.data_status.len()
        invariant
            t == tracker@,
            t.sized(),
            f == fec_set_index as int,
            from <= end,
            forall|s: int, e: int| from <= e < end ==> !#[trigger] t.run_of_set(f, s, e),
        decreases MAX_DATA_SHREDS_PER_SLOT - end,
    {
        if tracker.data_status[end] == ShredStatus::DataComplete
            && !tracker.already_deshredded[end] {
            let around = get_indexes(tracker, end);
            assert forall|s: int| #[trigger] t.run_of_set(f, s, end as int) implies t.is_run(
                end as int,
                s,
                end as int,
            ) by {
                law_complete_run_is_found(t, s, end as int, end as int);
            }
            if let Some((start, last, unknown_start)) = around {
                proof {
                    assert(last == end) by {
                        assert(t.data_status[end as int] is DataComplete);
                    }
                    law_complete_run_is_found(t, start as int, end as int, end as int);
                }
                let first: usize = fec_set_index as usize;
                if (start <= first && first <= end) || (!unknown_start && reaches(
                    tracker,
                    fec_set_index,
                    start,
                    end,
                )) {
                    assert(t.run_of_set(f, start as int, end as int));
                    return Some((start, end));
                }
                assert forall|s: int| !#[trigger] t.run_of_set(f, s, end as int) by {
                    if t.run_of_set(f, s, end as int) {
                        law_whole_run_unique(t, s, start as int, end as int);
                    }
                }
            }
        }
        end = end + 1;
    }
    None
}

} // verus!
