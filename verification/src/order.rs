//! Extremes and successors in sets of integers: the vocabulary in which the
//! queries of a tree are specified.

use vstd::prelude::*;

verus! {

/// `m` is the smallest element of `s`.
pub open spec fn is_least(s: Set<int>, m: int) -> bool {
    &&& s.contains(m)
    &&& forall|y: int| s.contains(y) ==> m <= y
}

/// `m` is the largest element of `s`.
pub open spec fn is_greatest(s: Set<int>, m: int) -> bool {
    &&& s.contains(m)
    &&& forall|y: int| s.contains(y) ==> y <= m
}

/// `y` is the smallest element of `s` that is not below `x`.
pub open spec fn is_successor(s: Set<int>, x: int, y: int) -> bool {
    &&& s.contains(y)
    &&& x <= y
    &&& forall|z: int| s.contains(z) && x <= z ==> y <= z
}

/// No element of `s` reaches `x`.
pub open spec fn all_below(s: Set<int>, x: int) -> bool {
    forall|z: int| s.contains(z) ==> z < x
}

/// A set has at most one smallest element.
pub proof fn lemma_least_unique(s: Set<int>, a: int, b: int)
    requires
        is_least(s, a),
        is_least(s, b),
    ensures
        a == b,
{
}

/// A set has at most one largest element.
pub proof fn lemma_greatest_unique(s: Set<int>, a: int, b: int)
    requires
        is_greatest(s, a),
        is_greatest(s, b),
    ensures
        a == b,
{
}

/// A value has at most one successor in a set.
pub proof fn lemma_successor_unique(s: Set<int>, x: int, a: int, b: int)
    requires
        is_successor(s, x, a),
        is_successor(s, x, b),
    ensures
        a == b,
{
}

/// A value has a successor in a set only if some element reaches it.
pub proof fn lemma_successor_reaches(s: Set<int>, x: int, a: int)
    requires
        is_successor(s, x, a),
    ensures
        !all_below(s, x),
{
}

} // verus!
