//! The shreds received of one erasure (FEC) set.
use itertools::Itertools;
use vstd::prelude::*;

use crate::shred::{same_shred, ComparableShred, Shred, ShredType, ShredView};

verus! {

/// The values of some shreds.
pub open spec fn shred_views(shreds: Seq<ComparableShred>) -> Seq<ShredView> {
    shreds.map_values(|s: ComparableShred| s@)
}

/// The data shreds among some shreds.
pub open spec fn data_shreds_of(shreds: Seq<ShredView>) -> Seq<ShredView> {
    shreds.filter(|s: ShredView| s is ShredData)
}

/// The coding shreds among some shreds.
pub open spec fn code_shreds_of(shreds: Seq<ShredView>) -> Seq<ShredView> {
    shreds.filter(|s: ShredView| s is ShredCode)
}

/// How many data shreds an erasure set has whose last data shred is `shred`,
/// in sixteen bits.
pub open spec fn span_to(shred: ShredView) -> u16 {
    ((shred.index() - shred.fec_set_index() + 1) % 0x1_0000) as u16
}

/// How many data shreds the set has, as far as `shreds`, taken in order, tell:
/// a coding shred says so and overrides what came before it; a data shred
/// that ends a run is taken for the last one while no other number is known.
/// Zero if nothing tells.
pub open spec fn expected_data_shreds(shreds: Seq<ShredView>) -> u16
    decreases shreds.len(),
{
    if shreds.len() == 0 {
        0
    } else {
        let before = expected_data_shreds(shreds.drop_last());
        match shreds.last() {
            ShredView::ShredCode(s) => s.coding_header.num_data_shreds,
            ShredView::ShredData(_) => if before == 0 && shreds.last().ends_run() {
                span_to(shreds.last())
            } else {
                before
            },
        }
    }
}

/// How many coding shreds the set has, as the last coding shred among
/// `shreds` says; zero without one.
pub open spec fn expected_coding_shreds(shreds: Seq<ShredView>) -> u16
    decreases shreds.len(),
{
    if shreds.len() == 0 {
        0
    } else {
        match shreds.last() {
            ShredView::ShredCode(s) => s.coding_header.num_coding_shreds,
            ShredView::ShredData(_) => expected_coding_shreds(shreds.drop_last()),
        }
    }
}

/// The numbers of data and coding shreds that the set is said to have, then
/// those that are among `shreds`, in sixteen bits.
pub open spec fn data_shred_info(shreds: Seq<ShredView>) -> (u16, u16, u16, u16) {
    (
        expected_data_shreds(shreds),
        expected_coding_shreds(shreds),
        (data_shreds_of(shreds).len() % 0x1_0000) as u16,
        (code_shreds_of(shreds).len() % 0x1_0000) as u16,
    )
}

/// Computes [`span_to`].
fn span_to_last(shred: &Shred) -> (span: u16)
    ensures
        span == span_to(shred@),
{
    let distance: u32 = shred.index().wrapping_sub(shred.fec_set_index());
    let low: u32 = distance % 0x1_0000;
    (low as u16).wrapping_add(1)
}

/// Counts the shreds of an erasure set, and finds how many there should be.
pub fn get_data_shred_info(shreds: &Vec<ComparableShred>) -> (info: (u16, u16, u16, u16))
    ensures
        info == data_shred_info(shred_views(shreds@)),
{
    let ghost all = shred_views(shreds@);
    let mut num_expected_data_shreds: u16 = 0;
    let mut num_expected_coding_shreds: u16 = 0;
    let mut num_data_shreds: u16 = 0;
    let mut num_coding_shreds: u16 = 0;
    let mut i: usize = 0;
    proof {
        assert(all.take(0) =~= Seq::empty());
        reveal(Seq::filter);
    }
    while i < shreds.len()
        invariant
            i <= shreds.len(),
            all == shred_views(shreds@),
            (num_expected_data_shreds, num_expected_coding_shreds, num_data_shreds, num_coding_shreds)
                == data_shred_info(all.take(i as int)),
        decreases shreds.len() - i,
    {
        let ghost seen = all.take(i as int);
        let ghost next = all.take(i + 1);
        proof {
            reveal(Seq::filter);
            assert(next.drop_last() =~= seen);
            assert(next.last() == shreds@[i as int]@);
        }
        let shred = &shreds[i].0;
        match shred {
            Shred::ShredCode(s) => {
                num_coding_shreds = num_coding_shreds.wrapping_add(1);
                num_expected_data_shreds = s.coding_header.num_data_shreds;
                num_expected_coding_shreds = s.coding_header.num_coding_shreds;
            },
            Shred::ShredData(s) => {
                num_data_shreds = num_data_shreds.wrapping_add(1);
                if num_expected_data_shreds == 0 && (s.data_complete || s.last_in_slot) {
                    num_expected_data_shreds = span_to_last(shred);
                }
            },
        }
        i = i + 1;
    }
    assert(all.take(i as int) =~= all);
    (
        num_expected_data_shreds,
        num_expected_coding_shreds,
        num_data_shreds,
        num_coding_shreds,
    )
}

/// The different shreds received of one erasure set, in order of arrival.
#[derive(Debug)]
pub struct FecSet {
    shreds: Vec<ComparableShred>,
}

impl View for FecSet {
    type V = Seq<ShredView>;

    closed spec fn view(&self) -> Seq<ShredView> {
        shred_views(self.shreds@)
    }
}

/// Some shred of `set` says the same as `shred`.
pub open spec fn holds_same(set: Seq<ShredView>, shred: ShredView) -> bool {
    exists|i: int| 0 <= i < set.len() && same_shred(shred, #[trigger] set[i])
}

/// The set once `shred` was offered to it: a shred that says nothing new is
/// dropped.
pub open spec fn with_shred(set: Seq<ShredView>, shred: ShredView) -> Seq<ShredView> {
    if holds_same(set, shred) {
        set
    } else {
        set.push(shred)
    }
}

/// No two shreds of `set` say the same.
pub open spec fn all_different(set: Seq<ShredView>) -> bool {
    forall|i: int, j: int|
        0 <= i < set.len() && 0 <= j < set.len() && i != j ==> !same_shred(
            #[trigger] set[i],
            #[trigger] set[j],
        )
}

/// Offering a shred to a set of different shreds leaves one.
pub proof fn law_insertion_keeps_shreds_different(set: Seq<ShredView>, shred: ShredView)
    requires
        all_different(set),
    ensures
        all_different(with_shred(set, shred)),
{
    let after = with_shred(set, shred);
    assert forall|i: int, j: int|
        0 <= i < after.len() && 0 <= j < after.len() && i != j implies !same_shred(
        #[trigger] after[i],
        #[trigger] after[j],
    ) by {
        crate::shred::law_same_shred_symmetric(after[i], after[j]);
    }
}

/// A shred that can be compared enters a set once: offering it again changes
/// nothing.
pub proof fn law_insertion_idempotent(set: Seq<ShredView>, shred: ShredView)
    requires
        same_shred(shred, shred),
    ensures
        with_shred(with_shred(set, shred), shred) == with_shred(set, shred),
{
    let after = with_shred(set, shred);
    if !holds_same(set, shred) {
        assert(after[set.len() as int] == shred);
    }
}

impl FecSet {
    pub fn new() -> (set: FecSet)
        ensures
            set@ == Seq::<ShredView>::empty(),
    {
        let set = FecSet { shreds: Vec::new() };
        assert(set@ =~= Seq::<ShredView>::empty());
        set
    }

    pub fn len(&self) -> (len: usize)
        ensures
            len == self@.len(),
    {
        self.shreds.len()
    }

    /// The shreds, in order of arrival.
    pub fn shreds(&self) -> (shreds: &Vec<ComparableShred>)
        ensures
            shred_views(shreds@) == self@,
    {
        &self.shreds
    }

    /// Adds a shred, unless one that says the same is there. Returns whether
    /// it was added.
    pub fn insert(&mut self, shred: ComparableShred) -> (added: bool)
        ensures
            final(self)@ == with_shred(old(self)@, shred@),
            added == !holds_same(old(self)@, shred@),
    {
        let ghost set = self@;
        let mut i: usize = 0;
        while i < self.shreds.len()
            invariant
                i <= self.shreds.len(),
                self@ == set,
                *self == *old(self),
                forall|j: int| 0 <= j < i ==> !same_shred(shred@, #[trigger] set[j]),
            decreases self.shreds.len() - i,
        {
            assert(set[i as int] == self.shreds@[i as int]@);
            if shred == self.shreds[i] {
                return false;
            }
            i = i + 1;
        }
        self.shreds.push(shred);
        assert(self@ =~= set.push(shred@));
        true
    }

    /// Drops every shred.
    pub fn clear(&mut self)
        ensures
            final(self)@ == Seq::<ShredView>::empty(),
    {
        self.shreds.clear();
        assert(self@ =~= Seq::<ShredView>::empty());
    }
}

/// Where a shred stands among those handed to a recovery: data shreds come
/// before coding shreds, and within a type the index decides.
pub open spec fn recovery_rank(shred: ShredView) -> (u8, u32) {
    (
        match shred.shred_type() {
            ShredType::Data => 0,
            ShredType::Code => 1,
        },
        shred.index(),
    )
}

/// Computes [`recovery_rank`].
pub fn recovery_key(shred: &Shred) -> (key: (u8, u32))
    ensures
        key == recovery_rank(shred@),
{
    let rank: u8 = match shred.shred_type() {
        ShredType::Data => 0,
        ShredType::Code => 1,
    };
    (rank, shred.index())
}

/// The order of pairs: the first numbers decide, then the second.
pub open spec fn pair_le(a: (u8, u32), b: (u8, u32)) -> bool {
    a.0 < b.0 || (a.0 == b.0 && a.1 <= b.1)
}

/// `after` holds the shreds of `before` by rank, those of one rank in the
/// order that they had.
pub open spec fn in_recovery_order(before: Seq<ShredView>, after: Seq<ShredView>) -> bool {
    &&& forall|i: int, j: int|
        0 <= i <= j < after.len() ==> pair_le(
            recovery_rank(#[trigger] after[i]),
            recovery_rank(#[trigger] after[j]),
        )
    &&& forall|rank: (u8, u32)|
        #[trigger] of_rank(after, rank) == of_rank(before, rank)
}

/// The shreds of one rank among some shreds.
pub open spec fn of_rank(shreds: Seq<ShredView>, rank: (u8, u32)) -> Seq<ShredView> {
    shreds.filter(|s: ShredView| recovery_rank(s) == rank)
}

/// The values of some shreds.
pub open spec fn views_of(shreds: Seq<Shred>) -> Seq<ShredView> {
    shreds.map_values(|s: Shred| s@)
}

/// Calls `itertools::Itertools::sorted_by_key` with [`recovery_key`], and
/// collects what comes out. Claimed of it: it is a stable sort by the key, so
/// the keys ascend, pairs being ordered by their first numbers and then by
/// their second, and the shreds of one key keep their order.
#[verifier::external_body]
fn sort_for_recovery(shreds: Vec<Shred>) -> (sorted: Vec<Shred>)
    ensures
        in_recovery_order(views_of(shreds@), views_of(sorted@)),
{
    shreds.into_iter().sorted_by_key(|s| recovery_key(s)).collect()
}

/// Copies of the shreds of a set, in the order in which a recovery takes
/// them.
pub fn shreds_for_recovery(set: &FecSet) -> (shreds: Vec<Shred>)
    ensures
        in_recovery_order(set@, views_of(shreds@)),
{
    let source = set.shreds();
    let mut copies: Vec<Shred> = Vec::new();
    let mut i: usize = 0;
    assert(views_of(copies@) =~= set@.take(0));
    while i < source.len()
        invariant
            i <= source.len(),
            set@ == shred_views(source@),
            views_of(copies@) == set@.take(i as int),
        decreases source.len() - i,
    {
        let copy = source[i].0.clone();
        let ghost copied = copies@;
        copies.push(copy);
        proof {
            assert(views_of(copies@) =~= views_of(copied).push(copy@));
            assert(set@.take(i + 1) =~= set@.take(i as int).push(set@[i as int]));
        }
        i = i + 1;
    }
    assert(set@.take(i as int) =~= set@);
    sort_for_recovery(copies)
}

} // verus!
