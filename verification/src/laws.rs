//! Laws of the tree that relate several operations: the ordering of the
//! cached extremes against every stored value, and the tightness of
//! successor and predecessor queries.

use crate::tree::VEBTree;
use vstd::prelude::*;

verus! {

/// `n` is the successor of `v` in the stored set `s`: the least stored
/// value strictly above `v`.  `findnext` ensures exactly this of every
/// `Some` result, with `s` the view of the tree.
pub open spec fn is_successor(s: Set<int>, v: int, n: int) -> bool {
    &&& s.contains(n)
    &&& v < n
    &&& forall|x: int| s.contains(x) && x > v ==> n <= x
}

/// `p` is the predecessor of `v` in the stored set `s`: the greatest
/// stored value strictly below `v`.  `findprev` ensures exactly this of
/// every `Some` result, with `s` the view of the tree.
pub open spec fn is_predecessor(s: Set<int>, v: int, p: int) -> bool {
    &&& s.contains(p)
    &&& p < v
    &&& forall|x: int| s.contains(x) && x < v ==> x <= p
}

/// Ordering invariant: whenever some value is stored, both extremes are
/// present, the minimum does not exceed the maximum, and every stored
/// value lies between them.
pub proof fn lemma_ordering(t: VEBTree, v: int)
    requires
        t.wf(),
        t@.contains(v),
    ensures
        t.spec_minimum() is Some,
        t.spec_maximum() is Some,
        t.spec_minimum() matches Some(m) ==> m as int <= v,
        t.spec_maximum() matches Some(m) ==> v <= m as int,
        t.spec_minimum()->Some_0 <= t.spec_maximum()->Some_0,
{
    assert(t.mem(v));
    t.lemma_extrema();
}

/// Ordering invariant, first half: whenever both extremes are present,
/// the minimum does not exceed the maximum.
pub proof fn lemma_min_le_max(t: VEBTree)
    requires
        t.wf(),
        t.spec_minimum() is Some,
    ensures
        t.spec_maximum() is Some,
        t.spec_minimum()->Some_0 <= t.spec_maximum()->Some_0,
{
    t.lemma_extrema();
    assert(t.mem(t.spec_minimum()->Some_0 as int));
}

/// Successor consistency: no stored value lies strictly between a value
/// and its successor.
pub proof fn lemma_successor_gap(s: Set<int>, v: int, n: int, x: int)
    requires
        is_successor(s, v, n),
        s.contains(x),
    ensures
        !(v < x && x < n),
{
}

/// Predecessor consistency: no stored value lies strictly between a value
/// and its predecessor.
pub proof fn lemma_predecessor_gap(s: Set<int>, v: int, p: int, x: int)
    requires
        is_predecessor(s, v, p),
        s.contains(x),
    ensures
        !(p < x && x < v),
{
}

} // verus!
