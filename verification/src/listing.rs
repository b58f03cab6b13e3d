//! The contents of hash tables as lists.
use std::collections::{HashMap, HashSet};

use vstd::prelude::*;
use vstd::std_specs::iter::IteratorSpec;

verus! {

broadcast use vstd::std_specs::hash::group_hash_axioms;

/// The keys of a map, each once, in no particular order.
pub fn keys_of<V>(m: &HashMap<u32, V>) -> (keys: Vec<u32>)
    ensures
        keys@.no_duplicates(),
        forall|k: u32| #[trigger] keys@.contains(k) <==> m@.contains_key(k),
{
    let mut keys: Vec<u32> = Vec::new();
    let it = m.keys();
    let ghost seq = it.remaining();
    for k in iter: it
        invariant
            iter.seq() == seq,
            seq.unref().to_set() == m@.dom(),
            seq.no_duplicates(),
            keys@.len() == iter.index(),
            forall|i: int| 0 <= i < keys@.len() ==> keys@[i] == *iter.seq()[i],
    {
        keys.push(*k);
    }
    proof {
        assert(seq.unref() =~= keys@);
        assert forall|k: u32| #[trigger] keys@.contains(k) <==> m@.contains_key(k) by {
            assert(keys@.to_set().contains(k) <==> m@.dom().contains(k));
        }
        assert forall|i: int, j: int| 0 <= i < j < keys@.len() implies keys@[i] != keys@[j] by {
            assert(seq[i] != seq[j]);
        }
    }
    keys
}

/// The members of a set, each once, in no particular order.
pub fn members_of(s: &HashSet<u32>) -> (members: Vec<u32>)
    ensures
        members@.no_duplicates(),
        forall|k: u32| #[trigger] members@.contains(k) <==> s@.contains(k),
{
    let mut members: Vec<u32> = Vec::new();
    let it = s.iter();
    let ghost seq = it.remaining();
    for k in iter: it
        invariant
            iter.seq() == seq,
            seq.unref().to_set() == s@,
            seq.no_duplicates(),
            members@.len() == iter.index(),
            forall|i: int| 0 <= i < members@.len() ==> members@[i] == *iter.seq()[i],
    {
        members.push(*k);
    }
    proof {
        assert(seq.unref() =~= members@);
        assert forall|k: u32| #[trigger] members@.contains(k) <==> s@.contains(k) by {
            assert(members@.to_set().contains(k) <==> s@.contains(k));
        }
        assert forall|i: int, j: int| 0 <= i < j < members@.len() implies members@[i]
            != members@[j] by {
            assert(seq[i] != seq[j]);
        }
    }
    members
}

/// Pushing adds one member.
pub proof fn lemma_push_contains<T>(s: Seq<T>, x: T)
    ensures
        forall|y: T| #[trigger] s.push(x).contains(y) <==> s.contains(y) || y == x,
{
    assert forall|y: T| #[trigger] s.push(x).contains(y) <==> s.contains(y) || y == x by {
        if s.contains(y) {
            let i = choose|i: int| 0 <= i < s.len() && s[i] == y;
            assert(s.push(x)[i] == y);
        }
        assert(s.push(x)[s.len() as int] == x);
    }
}

} // verus!
