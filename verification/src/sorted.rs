//! Ascending lists of addresses.
use vstd::prelude::*;

verus! {

/// Every key is smaller than those behind it.
pub open spec fn ascending(keys: Seq<u64>) -> bool {
    forall|i: int, j: int| 0 <= i < j < keys.len() ==> keys[i] < keys[j]
}

/// Behind the last key that is smaller than `a`.
pub open spec fn slot(keys: Seq<u64>, a: u64) -> int
    decreases keys.len(),
{
    if keys.len() == 0 || keys.last() < a {
        keys.len() as int
    } else {
        slot(keys.drop_last(), a)
    }
}

/// The slot in an ascending list lies between the smaller keys and the others.
pub proof fn lemma_slot(keys: Seq<u64>, a: u64)
    requires
        ascending(keys),
    ensures
        0 <= slot(keys, a) <= keys.len(),
        forall|i: int| 0 <= i < slot(keys, a) ==> keys[i] < a,
        forall|i: int| slot(keys, a) <= i < keys.len() ==> keys[i] >= a,
        keys.contains(a) <==> slot(keys, a) < keys.len() && keys[slot(keys, a)] == a,
    decreases keys.len(),
{
    if keys.len() > 0 && keys.last() >= a {
        lemma_slot(keys.drop_last(), a);
        assert forall|i: int| slot(keys, a) <= i < keys.len() implies keys[i] >= a by {
            if i < keys.len() - 1 {
                assert(keys.drop_last()[i] == keys[i]);
            }
        }
        assert forall|i: int| 0 <= i < slot(keys, a) implies keys[i] < a by {
            assert(keys.drop_last()[i] == keys[i]);
        }
    }
    if keys.contains(a) {
        let i = choose|i: int| 0 <= i < keys.len() && keys[i] == a;
        assert(i >= slot(keys, a));
        if slot(keys, a) < i {
            assert(keys[slot(keys, a)] < keys[i]);
        }
    }
}

/// A key put into its slot keeps the list ascending, unless it was there before.
pub proof fn lemma_insert(keys: Seq<u64>, a: u64)
    requires
        ascending(keys),
        !keys.contains(a),
    ensures
        ascending(keys.insert(slot(keys, a), a)),
        forall|k: u64| #[trigger]
            keys.insert(slot(keys, a), a).contains(k) <==> keys.contains(k) || k == a,
{
    lemma_slot(keys, a);
    let s = slot(keys, a);
    let next = keys.insert(s, a);
    assert forall|i: int, j: int| 0 <= i < j < next.len() implies next[i] < next[j] by {
        if j < s {
            assert(keys[i] < keys[j]);
        } else if i > s {
            assert(keys[i - 1] < keys[j - 1]);
        } else if i < s && j > s {
            assert(keys[i] < keys[j - 1]);
        } else if i < s && j == s {
            assert(keys[i] < a);
        } else if i == s {
            if keys[j - 1] == a {
                assert(keys.contains(a));
            }
        }
    }
    assert forall|k: u64| #[trigger] next.contains(k) <==> keys.contains(k) || k == a by {
        if keys.contains(k) {
            let i = choose|i: int| 0 <= i < keys.len() && keys[i] == k;
            if i < s {
                assert(next[i] == k);
            } else {
                assert(next[i + 1] == k);
            }
        }
        assert(next[s] == a);
        if next.contains(k) {
            let i = choose|i: int| 0 <= i < next.len() && next[i] == k;
            if i < s {
                assert(keys[i] == k);
            } else if i > s {
                assert(keys[i - 1] == k);
            }
        }
    }
}

/// The list with one more key, in its slot, unless it is there already.
pub open spec fn with_key(keys: Seq<u64>, a: u64) -> Seq<u64> {
    if keys.contains(a) {
        keys
    } else {
        keys.insert(slot(keys, a), a)
    }
}

/// Puts a key into its slot, unless it is there already.
pub fn insert_key(keys: &mut Vec<u64>, a: u64)
    requires
        ascending(old(keys)@),
    ensures
        final(keys)@ == with_key(old(keys)@, a),
        ascending(final(keys)@),
{
    let ghost all = keys@;
    let mut i: usize = keys.len();
    assert(all.take(i as int) =~= all);
    while i > 0 && keys[i - 1] >= a
        invariant
            i <= keys@.len(),
            keys@ == all,
            slot(all, a) == slot(all.take(i as int), a),
        decreases i,
    {
        assert(all.take(i as int).drop_last() =~= all.take(i - 1));
        i = i - 1;
    }
    assert(slot(all, a) == i) by {
        if i > 0 {
            assert(all.take(i as int).last() == all[i - 1]);
        }
    }
    proof {
        lemma_slot(all, a);
    }
    if i < keys.len() && keys[i] == a {
        return;
    }
    proof {
        lemma_insert(all, a);
    }
    keys.insert(i, a);
}

} // verus!
