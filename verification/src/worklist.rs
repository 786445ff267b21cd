//! Lists of erasure sets to look at: pairs of a slot and a set index.
use vstd::prelude::*;

verus! {

/// The order of pairs: the slots decide, then the set indexes.
pub open spec fn key_lt(a: (u64, u32), b: (u64, u32)) -> bool {
    a.0 < b.0 || (a.0 == b.0 && a.1 < b.1)
}

/// Each key is less than those behind it; none occurs twice.
pub open spec fn ascending(keys: Seq<(u64, u32)>) -> bool {
    forall|i: int, j: int| 0 <= i < j < keys.len() ==> key_lt(#[trigger] keys[i], #[trigger] keys[j])
}

/// No key is greater than one behind it.
pub open spec fn sorted(keys: Seq<(u64, u32)>) -> bool {
    forall|i: int, j: int|
        0 <= i <= j < keys.len() ==> keys[i] == keys[j] || key_lt(#[trigger] keys[i], #[trigger] keys[j])
}

/// Calls `sort_unstable` of a slice of pairs of integers: the same pairs, as
/// often as before, in ascending order.
#[verifier::external_body]
fn sort_keys(keys: &mut Vec<(u64, u32)>)
    ensures
        sorted(final(keys)@),
        final(keys)@.to_multiset() == old(keys)@.to_multiset(),
{
    keys.sort_unstable()
}

/// Sorts a list of keys and drops repetitions.
pub fn sort_and_dedup(keys: &mut Vec<(u64, u32)>)
    ensures
        ascending(final(keys)@),
        final(keys)@.to_set() == old(keys)@.to_set(),
{
    let ghost before = keys@;
    sort_keys(keys);
    let ghost all = keys@;
    proof {
        before.to_multiset_ensures();
        all.to_multiset_ensures();
        assert forall|k: (u64, u32)| before.contains(k) <==> all.contains(k) by {
            assert(before.contains(k) <==> before.to_multiset().count(k) > 0);
            assert(all.contains(k) <==> all.to_multiset().count(k) > 0);
        }
        assert(before.to_set() =~= all.to_set());
    }
    let mut kept: Vec<(u64, u32)> = Vec::new();
    let mut i: usize = 0;
    while i < keys.len()
        invariant
            i <= keys.len(),
            keys@ == all,
            sorted(all),
            ascending(kept@),
            i == 0 ==> kept@.len() == 0,
            i > 0 ==> kept@.len() > 0 && kept@.last() == all[i - 1],
            forall|k: (u64, u32)| kept@.contains(k) <==> all.take(i as int).contains(k),
        decreases keys.len() - i,
    {
        let key = keys[i];
        let ghost done = kept@;
        let ghost seen = all.take(i as int);
        let fresh = i == 0 || keys[i - 1].0 != key.0 || keys[i - 1].1 != key.1;
        if fresh {
            kept.push(key);
        }
        proof {
            let next = all.take(i + 1);
            assert(next =~= seen.push(key));
            if fresh {
                assert(kept@ =~= done.push(key));
                assert forall|a: int, b: int| 0 <= a < b < kept@.len() implies key_lt(
                    #[trigger] kept@[a],
                    #[trigger] kept@[b],
                ) by {
                    if b == done.len() {
                        assert(key_lt(all[i - 1], all[i as int]));
                        assert(kept@[a] == done[a]);
                        assert(done[a] == done.last() || key_lt(done[a], done[done.len() - 1]));
                    } else {
                        assert(key_lt(done[a], done[b]));
                    }
                }
            } else {
                assert(all[i - 1] == all[i as int]);
            }
            assert forall|k: (u64, u32)| kept@.contains(k) <==> next.contains(k) by {
                lemma_push_contains(seen, key, k);
                lemma_push_contains(done, key, k);
                if !fresh {
                    assert(done.contains(done.last()));
                }
            }
        }
        i = i + 1;
    }
    proof {
        assert(all.take(i as int) =~= all);
        assert(kept@.to_set() =~= all.to_set());
    }
    *keys = kept;
}

/// What an element behind a list adds to it.
pub proof fn lemma_push_contains<T>(s: Seq<T>, last: T, k: T)
    ensures
        s.push(last).contains(k) <==> s.contains(k) || k == last,
{
    if s.contains(k) {
        let i = choose|i: int| 0 <= i < s.len() && s[i] == k;
        assert(s.push(last)[i] == k);
    }
    if k == last {
        assert(s.push(last)[s.len() as int] == k);
    }
    if s.push(last).contains(k) && k != last {
        let i = choose|i: int| 0 <= i < s.push(last).len() && s.push(last)[i] == k;
        assert(s[i] == k);
    }
}

/// An ascending list of keys is determined by which keys are in it.
pub proof fn law_ascending_unique(a: Seq<(u64, u32)>, b: Seq<(u64, u32)>)
    requires
        ascending(a),
        ascending(b),
        a.to_set() == b.to_set(),
    ensures
        a == b,
    decreases a.len(),
{
    assert forall|k: (u64, u32)| a.contains(k) <==> b.contains(k) by {
        assert(a.contains(k) <==> a.to_set().contains(k));
        assert(b.contains(k) <==> b.to_set().contains(k));
    }
    if a.len() == 0 {
        if b.len() > 0 {
            assert(b.contains(b[0]));
        }
        assert(a =~= b);
    } else {
        assert(a.contains(a.last()));
        assert(b.contains(a.last()));
        let x = choose|i: int| 0 <= i < b.len() && b[i] == a.last();
        assert(b.contains(b.last()));
        assert(a.contains(b.last()));
        let y = choose|i: int| 0 <= i < a.len() && a[i] == b.last();
        if x < b.len() - 1 {
            assert(key_lt(b[x], b[b.len() - 1]));
        }
        if y < a.len() - 1 {
            assert(key_lt(a[y], a[a.len() - 1]));
        }
        assert(a.last() == b.last());
        let a0 = a.drop_last();
        let b0 = b.drop_last();
        assert forall|k: (u64, u32)| a0.to_set().contains(k) <==> b0.to_set().contains(k) by {
            assert(a =~= a0.push(a.last()));
            assert(b =~= b0.push(b.last()));
            lemma_push_contains(a0, a.last(), k);
            lemma_push_contains(b0, b.last(), k);
            if a0.contains(k) {
                let i = choose|i: int| 0 <= i < a0.len() && a0[i] == k;
                assert(key_lt(a[i], a[a.len() - 1]));
            }
            if b0.contains(k) {
                let i = choose|i: int| 0 <= i < b0.len() && b0[i] == k;
                assert(key_lt(b[i], b[b.len() - 1]));
            }
        }
        assert(a0.to_set() =~= b0.to_set());
        law_ascending_unique(a0, b0);
        assert(a =~= a0.push(a.last()));
        assert(b =~= b0.push(b.last()));
    }
}

} // verus!
