//! Sets of machine integers are finite: what bounds a search that never visits a thing twice.
use vstd::prelude::*;
use vstd::set_lib::{lemma_int_range, lemma_len_subset, set_int_range};

verus! {

/// How many 32-bit numbers lie outside `s`.
pub open spec fn outside32(s: Set<u32>) -> nat {
    s.complement().len()
}

/// How many 64-bit numbers lie outside `s`.
pub open spec fn outside64(s: Set<u64>) -> nat {
    s.complement().len()
}

/// A set of 32-bit numbers is finite.
pub proof fn lemma_finite32(s: Set<u32>)
    ensures
        s.finite(),
{
    let range = set_int_range(0, 0x1_0000_0000);
    let cast = |i: int| i as u32;
    lemma_int_range(0, 0x1_0000_0000);
    range.lemma_map_finite(cast);
    assert forall|x: u32| s.contains(x) implies range.map(cast).contains(x) by {
        assert(range.contains(x as int));
        assert(cast(x as int) == x);
    }
    lemma_len_subset(s, range.map(cast));
}

/// A set of 64-bit numbers is finite.
pub proof fn lemma_finite64(s: Set<u64>)
    ensures
        s.finite(),
{
    let range = set_int_range(0, 0x1_0000_0000_0000_0000);
    let cast = |i: int| i as u64;
    lemma_int_range(0, 0x1_0000_0000_0000_0000);
    range.lemma_map_finite(cast);
    assert forall|x: u64| s.contains(x) implies range.map(cast).contains(x) by {
        assert(range.contains(x as int));
        assert(cast(x as int) == x);
    }
    lemma_len_subset(s, range.map(cast));
}

/// A new member leaves fewer numbers outside.
pub proof fn lemma_outside32(s: Set<u32>, x: u32)
    requires
        !s.contains(x),
    ensures
        outside32(s.insert(x)) < outside32(s),
{
    lemma_finite32(s.complement());
    assert(s.insert(x).complement() =~= s.complement().remove(x));
}

/// A larger set leaves no more numbers outside.
pub proof fn lemma_outside32_subset(s: Set<u32>, t: Set<u32>)
    requires
        s.subset_of(t),
    ensures
        outside32(t) <= outside32(s),
{
    lemma_finite32(s.complement());
    lemma_len_subset(t.complement(), s.complement());
}

/// A new member leaves fewer numbers outside.
pub proof fn lemma_outside64(s: Set<u64>, x: u64)
    requires
        !s.contains(x),
    ensures
        outside64(s.insert(x)) < outside64(s),
{
    lemma_finite64(s.complement());
    assert(s.insert(x).complement() =~= s.complement().remove(x));
}

/// A larger set leaves no more numbers outside.
pub proof fn lemma_outside64_subset(s: Set<u64>, t: Set<u64>)
    requires
        s.subset_of(t),
    ensures
        outside64(t) <= outside64(s),
{
    lemma_finite64(s.complement());
    lemma_len_subset(t.complement(), s.complement());
}

} // verus!
