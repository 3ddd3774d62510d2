//! The van Emde Boas tree itself: representation, mathematical model,
//! structural invariant, and the verified operations.

use crate::arith::ceil_sqrt;
use crate::arith::is_ceil_sqrt;
use crate::arith::lemma_ceil_sqrt_range;
use crate::arith::lemma_ceil_sqrt_unique;
use crate::arith::lemma_combine;
use crate::arith::lemma_div_below;
use crate::arith::lemma_div_mod_split;
use crate::arith::lemma_split_order;
use vstd::prelude::*;

verus! {

/// Error reported when an operation receives a value outside the
/// universe `[0, capacity)` of the tree.
#[derive(Clone, Copy, Debug, PartialEq, Eq)]
pub enum VebError {
    ValueOutOfRange,
}

/// A van Emde Boas tree over the universe of integers `[0, capacity)`.
///
/// A tree with capacity above 2 owns `ceil_sqrt(capacity)` child trees
/// ("clusters"), each covering a sub-universe of that same size, plus one
/// auxiliary tree over cluster indices that records which clusters are
/// non-empty.  The smallest and largest stored values are cached in
/// `min`/`max`; every stored value is also represented recursively in the
/// clusters.  A tree with capacity at most 2 is a leaf holding its at most
/// two possible values directly in `min`/`max`.
#[derive(Debug, PartialEq, Eq)]
#[verifier::ext_equal]
pub struct VEBTree {
    capacity: usize,
    children: Vec<VEBTree>,
    aux: Vec<VEBTree>,
    max: Option<usize>,
    min: Option<usize>,
}

impl VEBTree {
    /// The number of child clusters; zero exactly at the leaves.
    pub closed spec fn clusters(self) -> int {
        self.children.len() as int
    }

    /// The universe bound: stored values lie in `[0, cap())`.
    pub closed spec fn cap(self) -> int {
        self.capacity as int
    }

    /// The cached smallest stored value, absent when the tree is empty.
    pub closed spec fn spec_minimum(self) -> Option<usize> {
        self.min
    }

    /// The cached largest stored value, absent when the tree is empty.
    pub closed spec fn spec_maximum(self) -> Option<usize> {
        self.max
    }

    /// Membership: `v` is stored in the tree.  A value is stored when it is
    /// one of the two cached extremes or, split into a cluster index and an
    /// offset, stored in the addressed cluster.
    pub closed spec fn mem(self, v: int) -> bool
        decreases self, 1int,
    {
        ||| (self.min matches Some(m) && v == m as int)
        ||| (self.max matches Some(m) && v == m as int)
        ||| self.submem(v)
    }

    /// Membership in the recursive substructure only.
    pub closed spec fn submem(self, v: int) -> bool
        decreases self, 0int,
    {
        &&& self.clusters() > 0
        &&& 0 <= v
        &&& v / self.clusters() < self.clusters()
        &&& self.children[v / self.clusters()].mem(v % self.clusters())
    }

    /// Structural well-formedness of the children and auxiliary tree,
    /// leaving the relation between the cached extremes and the
    /// substructure aside.
    pub closed spec fn wf_sub(self) -> bool
        decreases self, 0int,
    {
        if self.clusters() == 0 {
            &&& self.aux.len() == 0
            &&& self.cap() <= 2
        } else {
            &&& self.cap() > 2
            &&& is_ceil_sqrt(self.clusters(), self.cap())
            &&& self.aux.len() == 1
            &&& self.aux[0].wf()
            &&& self.aux[0].cap() == self.clusters()
            &&& forall|i: int|
                0 <= i < self.clusters() ==> (#[trigger] self.children[i]).wf()
                    && self.children[i].cap() == self.clusters()
            &&& forall|i: int|
                0 <= i < self.clusters() ==> ((#[trigger] self.aux[0].mem(i))
                    <==> self.children[i].min is Some)
        }
    }

    /// The cached extremes agree with the substructure: both are stored
    /// there, and they bound everything stored there.
    pub closed spec fn wf_cache(self) -> bool {
        &&& match (self.min, self.max) {
            (Some(m), Some(mx)) => m <= mx && (mx as int) < self.cap(),
            (None, None) => true,
            _ => false,
        }
        &&& self.clusters() > 0 ==> {
            &&& (self.min matches Some(m) ==> self.submem(m as int))
            &&& (self.max matches Some(m) ==> self.submem(m as int))
            &&& forall|v: int|
                #[trigger] self.submem(v) ==> (self.min matches Some(m) && m as int <= v)
                    && (self.max matches Some(mx) && v <= mx as int)
        }
    }

    /// The full structural invariant, established by construction and
    /// preserved by every operation.
    pub closed spec fn wf(self) -> bool
        decreases self, 1int,
    {
        self.wf_sub() && self.wf_cache()
    }

    /// Structural equality, field by field and cluster by cluster.
    pub closed spec fn equiv(self, other: VEBTree) -> bool
        decreases self,
    {
        &&& self.capacity == other.capacity
        &&& self.min == other.min
        &&& self.max == other.max
        &&& self.children.len() == other.children.len()
        &&& self.aux.len() == other.aux.len()
        &&& forall|i: int|
            0 <= i < self.children.len() ==> (#[trigger] self.children[i]).equiv(
                other.children[i],
            )
        &&& forall|i: int|
            0 <= i < self.aux.len() ==> (#[trigger] self.aux[i]).equiv(other.aux[i])
    }
}

impl View for VEBTree {
    type V = Set<int>;

    /// The tree, seen as the set of values it stores.
    open spec fn view(&self) -> Set<int> {
        Set::new(|v: int| self.mem(v))
    }
}

impl VEBTree {
    /// Structural equality is reflexive.
    pub proof fn lemma_equiv_reflexive(self)
        ensures
            self.equiv(self),
        decreases self,
    {
        assert forall|i: int| 0 <= i < self.children.len() implies (
        #[trigger] self.children[i]).equiv(self.children[i]) by {
            self.children[i].lemma_equiv_reflexive();
        }
        assert forall|i: int| 0 <= i < self.aux.len() implies (#[trigger] self.aux[i]).equiv(
            self.aux[i],
        ) by {
            self.aux[i].lemma_equiv_reflexive();
        }
    }

    /// The substructure predicates ignore the caches: two trees that share
    /// children, auxiliary tree and capacity agree on them.
    proof fn lemma_same_substructure(a: VEBTree, b: VEBTree)
        requires
            a.children == b.children,
            a.aux == b.aux,
            a.capacity == b.capacity,
        ensures
            forall|x: int| #![trigger a.submem(x)] #![trigger b.submem(x)] a.submem(x) == b.submem(
                x,
            ),
            a.wf_sub() == b.wf_sub(),
    {
        assert forall|x: int| #![trigger a.submem(x)] #![trigger b.submem(x)] a.submem(x)
            == b.submem(x) by {
            assert(a.clusters() == b.clusters());
        }
        assert(a.clusters() == b.clusters());
        if a.clusters() > 0 {
            assert(a.wf_sub() == b.wf_sub());
        }
    }

    /// Every stored value lies inside the universe `[0, cap())`.
    pub proof fn lemma_mem_in_range(self, v: int)
        requires
            self.wf(),
            self.mem(v),
        ensures
            0 <= v < self.cap(),
    {
        assert(self.wf_sub() && self.wf_cache());
        assert((self.min matches Some(m) && v == m as int) || (self.max matches Some(m) && v
            == m as int) || self.submem(v));
        match (self.min, self.max) {
            (Some(m), Some(mx)) => {
                assert((mx as int) < self.cap());
                if v == m as int || v == mx as int {
                } else {
                    assert(self.submem(v));
                    assert(v <= mx as int);
                }
            },
            _ => {
                assert(self.min is None && self.max is None);
                assert(self.submem(v));
                assert(self.clusters() > 0);
                assert(false);
            },
        }
    }

    /// The cached extremes are exactly the minimum and maximum of the
    /// stored set, and they are absent exactly when the tree is empty.
    pub proof fn lemma_extrema(self)
        requires
            self.wf(),
        ensures
            self.spec_minimum() is Some <==> self.spec_maximum() is Some,
            self.spec_minimum() is None <==> forall|v: int| !(#[trigger] self.mem(v)),
            self.spec_minimum() matches Some(m) ==> self.mem(m as int),
            self.spec_maximum() matches Some(m) ==> self.mem(m as int),
            forall|v: int|
                #[trigger] self.mem(v) ==> (self.spec_minimum() matches Some(m) && m as int <= v),
            forall|v: int|
                #[trigger] self.mem(v) ==> (self.spec_maximum() matches Some(m) && v <= m as int),
    {
        assert(self.wf_sub() && self.wf_cache());
        match (self.min, self.max) {
            (Some(m), Some(mx)) => {
                assert(self.mem(m as int));
                assert(self.mem(mx as int));
                assert forall|v: int| self.mem(v) implies m as int <= v && v <= mx as int by {
                    if self.submem(v) {
                        assert((m as int) <= v && v <= mx as int);
                    }
                }
            },
            (None, None) => {
                assert forall|v: int| !self.mem(v) by {
                    if self.submem(v) {
                        assert(self.min is Some);
                    }
                }
            },
            _ => {
                assert(false);
            },
        }
    }
}

impl VEBTree {
    /// Creates an empty tree whose universe is `[0, capacity)`.
    ///
    /// A capacity of at most 2 yields a leaf; otherwise the tree owns
    /// `ceil_sqrt(capacity)` clusters and one auxiliary tree, each built
    /// recursively with capacity `ceil_sqrt(capacity)`.
    pub fn with_capacity(capacity: usize) -> (r: VEBTree)
        ensures
            r.wf(),
            r.cap() == capacity as int,
            r@ == Set::<int>::empty(),
            forall|v: int| !(#[trigger] r.mem(v)),
        decreases capacity,
    {
        if capacity <= 2 {
            let r = VEBTree {
                capacity,
                children: Vec::new(),
                aux: Vec::new(),
                max: None,
                min: None,
            };
            proof {
                assert forall|v: int| !r.mem(v) by {
                    assert(!r.submem(v));
                }
                assert(r@ =~= Set::<int>::empty());
            }
            r
        } else {
            let s = ceil_sqrt(capacity);
            proof {
                lemma_ceil_sqrt_range(s as int, capacity as int);
            }
            let mut children_seed: Vec<VEBTree> = Vec::with_capacity(s);
            let mut aux_seed: Vec<VEBTree> = Vec::with_capacity(1);
            let mut i: usize = 0;
            while i < s
                invariant
                    2 <= s < capacity,
                    is_ceil_sqrt(s as int, capacity as int),
                    i <= s,
                    children_seed.len() == i,
                    forall|j: int|
                        0 <= j < i ==> (#[trigger] children_seed[j]).wf()
                            && children_seed[j].cap() == s as int,
                    forall|j: int, v: int|
                        0 <= j < i ==> !(#[trigger] children_seed[j].mem(v)),
                decreases s - i,
            {
                let child = Self::with_capacity(s);
                proof {
                    child.lemma_extrema();
                }
                children_seed.push(child);
                i = i + 1;
            }
            let aux = Self::with_capacity(s);
            proof {
                aux.lemma_extrema();
            }
            aux_seed.push(aux);
            let r = VEBTree {
                capacity,
                children: children_seed,
                aux: aux_seed,
                max: None,
                min: None,
            };
            proof {
                assert forall|v: int| !r.submem(v) by {
                    if r.submem(v) {
                        assert(r.children[v / r.clusters()].mem(v % r.clusters()));
                    }
                }
                assert forall|idx: int|
                    0 <= idx < r.clusters() implies ((#[trigger] r.aux[0].mem(idx))
                    <==> r.children[idx].min is Some) by {
                    r.children[idx].lemma_extrema();
                    assert(!r.aux[0].mem(idx));
                    assert(r.children[idx].spec_minimum() is None);
                }
                assert(r.wf_sub());
                assert(r.wf_cache());
                assert forall|v: int| !r.mem(v) by {
                    assert(!r.submem(v));
                }
                assert(r@ =~= Set::<int>::empty());
            }
            r
        }
    }

    /// Creates an empty tree whose universe is `[0, capacity)`.
    pub fn new(capacity: usize) -> (r: VEBTree)
        ensures
            r.wf(),
            r.cap() == capacity as int,
            r@ == Set::<int>::empty(),
    {
        Self::with_capacity(capacity)
    }

    /// For an in-range value of an interior tree, the split into cluster
    /// index and offset is well defined and invertible, and the cluster
    /// count lies strictly between 1 and the capacity.
    proof fn lemma_split(self, v: int)
        requires
            self.wf_sub(),
            self.clusters() > 0,
            0 <= v < self.cap(),
        ensures
            2 <= self.clusters() < self.cap(),
            0 <= v / self.clusters() < self.clusters(),
            0 <= v % self.clusters() < self.clusters(),
            v == (v / self.clusters()) * self.clusters() + v % self.clusters(),
    {
        let k = self.clusters();
        lemma_ceil_sqrt_range(k, self.cap());
        lemma_div_mod_split(v, k);
        lemma_div_below(v, k);
    }

    /// The cluster index of a value: its quotient by the cluster count.
    fn high(&self, value: usize) -> (r: usize)
        requires
            self.clusters() > 0,
        ensures
            r as int == value as int / self.clusters(),
    {
        value / self.children.len()
    }

    /// The offset of a value inside its cluster: its remainder by the
    /// cluster count.
    fn low(&self, value: usize) -> (r: usize)
        requires
            self.clusters() > 0,
        ensures
            r as int == value as int % self.clusters(),
    {
        value % self.children.len()
    }

    /// Returns whether the given value is stored in the tree.
    pub fn contains(&self, value: usize) -> (r: bool)
        requires
            self.wf(),
        ensures
            r == self@.contains(value as int),
        decreases self.cap(),
    {
        proof {
            if self.mem(value as int) {
                self.lemma_mem_in_range(value as int);
            }
        }
        if value >= self.capacity {
            return false;
        }
        match self.min {
            Some(min_val) => {
                if value == min_val {
                    true
                } else {
                    match self.max {
                        Some(max_val) => {
                            if value == max_val {
                                true
                            } else {
                                if self.children.len() > 0 {
                                    proof {
                                        self.lemma_split(value as int);
                                    }
                                    let tmp = self.high(value);
                                    let r = self.children[tmp].contains(self.low(value));
                                    proof {
                                        assert(r == self.children[tmp as int].mem(
                                            value as int % self.clusters(),
                                        ));
                                        assert(r == self.submem(value as int));
                                    }
                                    r
                                } else {
                                    false
                                }
                            }
                        },
                        None => false,
                    }
                }
            },
            None => {
                proof {
                    self.lemma_extrema();
                }
                false
            },
        }
    }

    /// Searches for the given value: returns it when it is stored in the
    /// tree, and `None` otherwise.
    pub fn search(&self, value: usize) -> (r: Option<usize>)
        requires
            self.wf(),
        ensures
            r == if self@.contains(value as int) {
                Some(value)
            } else {
                None::<usize>
            },
        decreases self.cap(),
    {
        proof {
            if self.mem(value as int) {
                self.lemma_mem_in_range(value as int);
            }
        }
        if value >= self.capacity {
            return None;
        }
        let min_val = match self.min {
            Some(m) => m,
            None => {
                proof {
                    self.lemma_extrema();
                }
                return None;
            },
        };
        if value == min_val {
            return self.min;
        }
        let max_val = match self.max {
            Some(m) => m,
            None => {
                return None;
            },
        };
        if value == max_val {
            return self.max;
        }
        if self.children.len() == 0 {
            return None;
        }
        proof {
            self.lemma_split(value as int);
        }
        let local_idx = self.high(value);
        let pass_value = self.low(value);
        match self.children[local_idx].minimum() {
            None => {
                proof {
                    assert(!self.children[local_idx as int]@.contains(pass_value as int));
                    assert(!self.submem(value as int));
                }
                return None;
            },
            Some(_) => {},
        }
        let result = match self.children[local_idx].search(pass_value) {
            Some(x) => x,
            None => {
                proof {
                    assert(!self.children[local_idx as int]@.contains(pass_value as int));
                    assert(!self.submem(value as int));
                }
                return None;
            },
        };
        proof {
            assert(self.children[local_idx as int]@.contains(pass_value as int));
            assert(self.children[local_idx as int].mem(pass_value as int));
            assert(self.submem(value as int));
            assert(self.mem(value as int));
            assert(result as int + (local_idx as int) * self.clusters() == value as int);
        }
        Some(result + local_idx * self.children.len())
    }

    /// Propagates a value into the recursive substructure: marks the
    /// addressed cluster as occupied in the auxiliary tree when it was
    /// empty, then inserts the offset into that cluster.  The caches of
    /// this node are left alone; at a leaf nothing happens.
    fn insert_into_tree(&mut self, value: usize)
        requires
            old(self).wf_sub(),
            (value as int) < old(self).cap(),
        ensures
            final(self).wf_sub(),
            final(self).capacity == old(self).capacity,
            final(self).min == old(self).min,
            final(self).max == old(self).max,
            final(self).clusters() == old(self).clusters(),
            old(self).clusters() == 0 ==> *final(self) == *old(self),
            forall|x: int|
                #[trigger] final(self).submem(x) <==> old(self).submem(x) || (old(
                    self,
                ).clusters() > 0 && x == value as int),
            old(self).submem(value as int) ==> final(self).equiv(*old(self)),
        decreases old(self).cap(), 0int,
    {
        if self.children.len() > 0 {
            proof {
                self.lemma_split(value as int);
            }
            let local_idx = self.high(value);
            let pass_value = self.low(value);
            let ghost prior = *self;
            let ghost k = self.clusters();
            let was_empty = self.children[local_idx].minimum().is_none();
            if was_empty {
                let _ = self.aux[0].insert(local_idx);
            }
            proof {
                assert(self.children == prior.children);
                assert(self.aux[0].wf() && self.aux[0].cap() == k);
                assert forall|i: int| 0 <= i < k implies ((#[trigger] self.aux[0].mem(i))
                    <==> (prior.aux[0].mem(i) || (was_empty && i == local_idx as int))) by {
                    if was_empty {
                        assert(self.aux[0]@.contains(i) == prior.aux[0]@.insert(
                            local_idx as int,
                        ).contains(i));
                    }
                }
            }
            let _ = self.children[local_idx].insert(pass_value);
            proof {
                let fin = *self;
                let idx = local_idx as int;
                let pass = pass_value as int;
                let child = prior.children[idx];
                let child_fin = fin.children[idx];
                assert(fin.children@ == prior.children@.update(idx, child_fin));
                assert(child_fin.wf() && child_fin.cap() == k);
                assert(child_fin@.contains(pass) == child@.insert(pass).contains(pass));
                assert(child_fin.mem(pass));
                child_fin.lemma_extrema();
                // occupancy bookkeeping stays in step
                assert forall|i: int| 0 <= i < k implies ((#[trigger] fin.aux[0].mem(i))
                    <==> fin.children[i].min is Some) by {
                    if i == idx {
                        assert(fin.aux[0].mem(i));
                    } else {
                        assert(fin.children[i] == prior.children[i]);
                        assert(fin.aux[0].mem(i) <==> prior.aux[0].mem(i));
                    }
                }
                assert(fin.wf_sub());
                // the substructure gains exactly the propagated value
                assert forall|x: int| #[trigger] fin.submem(x) <==> (prior.submem(x) || x
                    == value as int) by {
                    if 0 <= x && x / k < k {
                        lemma_div_mod_split(x, k);
                        if x / k == idx {
                            assert(child_fin@.contains(x % k) == child@.insert(pass).contains(
                                x % k,
                            ));
                            assert(child_fin.mem(x % k) <==> (child.mem(x % k) || x % k
                                == pass));
                            if x % k == pass && x / k == idx {
                                assert(x == idx * k + pass);
                                assert(value as int == idx * k + pass);
                            }
                        } else {
                            assert(fin.children[x / k] == prior.children[x / k]);
                            assert(x != value as int);
                        }
                    }
                }
                // inserting a value the substructure already holds changes nothing
                if prior.submem(value as int) {
                    assert(child.mem(pass));
                    child.lemma_extrema();
                    assert(!was_empty);
                    assert(child_fin.equiv(child));
                    assert forall|i: int| 0 <= i < fin.children.len() implies (
                    #[trigger] fin.children[i]).equiv(prior.children[i]) by {
                        if i != idx {
                            fin.children[i].lemma_equiv_reflexive();
                        }
                    }
                    assert forall|i: int| 0 <= i < fin.aux.len() implies (
                    #[trigger] fin.aux[i]).equiv(prior.aux[i]) by {
                        fin.aux[i].lemma_equiv_reflexive();
                    }
                    assert(fin.equiv(prior));
                }
            }
        }
    }

    /// Withdraws a value from the recursive substructure: deletes the
    /// offset from the addressed cluster, then unmarks the cluster in the
    /// auxiliary tree when it became empty.  The caches of this node are
    /// left alone; at a leaf nothing happens.
    fn delete_from_tree(&mut self, value: usize)
        requires
            old(self).wf_sub(),
            (value as int) < old(self).cap(),
        ensures
            final(self).wf_sub(),
            final(self).capacity == old(self).capacity,
            final(self).min == old(self).min,
            final(self).max == old(self).max,
            final(self).clusters() == old(self).clusters(),
            old(self).clusters() == 0 ==> *final(self) == *old(self),
            forall|x: int|
                #[trigger] final(self).submem(x) <==> old(self).submem(x) && x != value as int,
            !old(self).submem(value as int) ==> final(self).equiv(*old(self)),
        decreases old(self).cap(), 0int,
    {
        if self.children.len() > 0 {
            proof {
                self.lemma_split(value as int);
            }
            let local_idx = self.high(value);
            let pass_value = self.low(value);
            let ghost prior = *self;
            let ghost k = self.clusters();
            let ghost idx = local_idx as int;
            let ghost pass = pass_value as int;
            let _ = self.children[local_idx].delete(pass_value);
            let ghost mid = *self;
            proof {
                let child = prior.children[idx];
                let child_mid = mid.children[idx];
                assert(mid.children@ == prior.children@.update(idx, child_mid));
                assert(child_mid.wf() && child_mid.cap() == k);
                assert(!child_mid@.contains(pass));
                assert(!child_mid.mem(pass));
                child.lemma_extrema();
                child_mid.lemma_extrema();
            }
            let cluster_emptied = self.children[local_idx].minimum().is_none();
            if cluster_emptied {
                let _ = self.aux[0].delete(local_idx);
            }
            proof {
                let fin = *self;
                let child = prior.children[idx];
                let child_fin = fin.children[idx];
                assert(fin.children == mid.children);
                assert(child_fin@ == child@.remove(pass));
                assert(fin.aux[0].wf() && fin.aux[0].cap() == k);
                if cluster_emptied {
                    assert(!fin.aux[0]@.contains(idx));
                } else {
                    assert(fin.aux[0] == prior.aux[0]);
                }
                // occupancy bookkeeping stays in step
                assert forall|i: int| 0 <= i < k implies ((#[trigger] fin.aux[0].mem(i))
                    <==> fin.children[i].min is Some) by {
                    child_fin.lemma_extrema();
                    if i != idx {
                        assert(fin.children[i] == prior.children[i]);
                        if cluster_emptied {
                            assert(fin.aux[0]@.contains(i) == prior.aux[0]@.remove(
                                idx,
                            ).contains(i));
                        }
                    } else {
                        if !cluster_emptied {
                            assert(child_fin.min is Some);
                            assert(!child_fin@.is_empty());
                            assert(child_fin@.contains(child_fin.spec_minimum()->Some_0 as int));
                            assert(child@.contains(child_fin.spec_minimum()->Some_0 as int));
                            child.lemma_extrema();
                            assert(child.min is Some);
                        }
                    }
                }
                assert(fin.wf_sub());
                // the substructure loses exactly the withdrawn value
                assert forall|x: int| #[trigger] fin.submem(x) <==> (prior.submem(x) && x
                    != value as int) by {
                    if 0 <= x && x / k < k {
                        lemma_div_mod_split(x, k);
                        if x / k == idx {
                            assert(fin.children[x / k] == child_fin);
                            assert(child_fin@.contains(x % k) == child@.remove(pass).contains(
                                x % k,
                            ));
                            assert(child_fin.mem(x % k) <==> (child.mem(x % k) && x % k
                                != pass));
                            if x % k == pass && x / k == idx {
                                assert(x == idx * k + pass);
                                assert(value as int == idx * k + pass);
                            }
                        } else {
                            assert(fin.children[x / k] == prior.children[x / k]);
                            assert(x != value as int);
                        }
                    }
                }
                // withdrawing a value the substructure does not hold changes nothing
                if !prior.submem(value as int) {
                    let child = prior.children[idx];
                    assert(!child.mem(pass));
                    assert(!child@.contains(pass));
                    assert(child_fin.equiv(child));
                    assert(child_fin.min == child.min);
                    if cluster_emptied {
                        child.lemma_extrema();
                        assert(!prior.aux[0].mem(idx));
                        assert(!prior.aux[0]@.contains(idx));
                        assert(fin.aux[0].equiv(prior.aux[0]));
                    } else {
                        assert(fin.aux[0] == prior.aux[0]);
                        fin.aux[0].lemma_equiv_reflexive();
                    }
                    assert forall|i: int| 0 <= i < fin.children.len() implies (
                    #[trigger] fin.children[i]).equiv(prior.children[i]) by {
                        if i != idx {
                            fin.children[i].lemma_equiv_reflexive();
                        }
                    }
                    assert(fin.equiv(prior));
                }
            }
        }
    }

    /// Inserts a value into the tree.
    ///
    /// A value outside `[0, capacity)` is rejected with an error and the
    /// tree is left untouched.  Inserting a value that is already stored
    /// leaves the tree unchanged.
    pub fn insert(&mut self, value: usize) -> (r: Result<(), VebError>)
        requires
            old(self).wf(),
        ensures
            final(self).wf(),
            final(self).cap() == old(self).cap(),
            (value as int) < old(self).cap() ==> r is Ok && final(self)@ == old(self)@.insert(
                value as int,
            ),
            (value as int) >= old(self).cap() ==> r is Err && *final(self) == *old(self),
            old(self)@.contains(value as int) ==> final(self).equiv(*old(self)),
        decreases old(self).cap(), 1int,
    {
        proof {
            if old(self).mem(value as int) {
                old(self).lemma_mem_in_range(value as int);
            }
        }
        if value >= self.capacity {
            return Err(VebError::ValueOutOfRange);
        }
        let ghost prior = *self;
        match self.min {
            Some(min_value) => {
                if value == min_value {
                    proof {
                        self.lemma_equiv_reflexive();
                        assert(final(self)@ =~= prior@.insert(value as int));
                    }
                    return Ok(());
                }
                match self.max {
                    Some(max_value) => {
                        if max_value == value {
                            proof {
                                self.lemma_equiv_reflexive();
                                assert(final(self)@ =~= prior@.insert(value as int));
                            }
                            return Ok(());
                        }
                        if value < min_value {
                            self.min = Some(value);
                            self.insert_into_tree(value);
                            proof {
                                Self::lemma_insert_restores(prior, *self, value);
                                if prior.mem(value as int) {
                                    prior.lemma_extrema();
                                    assert(false);
                                }
                            }
                            return Ok(());
                        } else if value > max_value {
                            self.max = Some(value);
                            self.insert_into_tree(value);
                            proof {
                                Self::lemma_insert_restores(prior, *self, value);
                                if prior.mem(value as int) {
                                    prior.lemma_extrema();
                                    assert(false);
                                }
                            }
                            return Ok(());
                        } else {
                            self.insert_into_tree(value);
                            proof {
                                Self::lemma_insert_restores(prior, *self, value);
                                if prior.mem(value as int) {
                                    assert(prior.submem(value as int));
                                }
                            }
                            return Ok(());
                        }
                    },
                    None => {
                        // a cached minimum always comes with a cached maximum
                        proof {
                            assert(false);
                        }
                        vstd::pervasive::unreached()
                    },
                }
            },
            None => {
                self.min = Some(value);
                self.max = Some(value);
                self.insert_into_tree(value);
                proof {
                    prior.lemma_extrema();
                    Self::lemma_insert_restores(prior, *self, value);
                }
                return Ok(());
            },
        }
    }

    /// Deletes a value from the tree.
    ///
    /// A value outside `[0, capacity)` is rejected with an error and the
    /// tree is left untouched.  Deleting a value that is not stored leaves
    /// the tree unchanged.
    pub fn delete(&mut self, value: usize) -> (r: Result<(), VebError>)
        requires
            old(self).wf(),
        ensures
            final(self).wf(),
            final(self).cap() == old(self).cap(),
            (value as int) < old(self).cap() ==> r is Ok && final(self)@ == old(self)@.remove(
                value as int,
            ),
            (value as int) >= old(self).cap() ==> r is Err && *final(self) == *old(self),
            !old(self)@.contains(value as int) ==> final(self).equiv(*old(self)),
        decreases old(self).cap(), 1int,
    {
        proof {
            if old(self).mem(value as int) {
                old(self).lemma_mem_in_range(value as int);
            }
        }
        if value >= self.capacity {
            proof {
                self.lemma_equiv_reflexive();
            }
            return Err(VebError::ValueOutOfRange);
        }
        let ghost prior = *self;
        let ghost k = self.clusters();
        let mn: usize;
        let mx: usize;
        match (self.min, self.max) {
            (Some(a), Some(b)) => {
                mn = a;
                mx = b;
            },
            (None, None) => {
                proof {
                    prior.lemma_extrema();
                    self.lemma_equiv_reflexive();
                    assert(final(self)@ =~= prior@.remove(value as int));
                }
                return Ok(());
            },
            _ => {
                // a cached minimum always comes with a cached maximum
                proof {
                    assert(false);
                }
                return vstd::pervasive::unreached();
            },
        }
        if mn == mx {
            if value == mn {
                self.delete_from_tree(value);
                let ghost mid = *self;
                self.min = None;
                self.max = None;
                proof {
                    let fin = *self;
                    Self::lemma_same_substructure(mid, fin);
                    assert forall|x: int| !fin.submem(x) by {
                        if fin.submem(x) {
                            assert(mid.submem(x));
                            assert(prior.submem(x));
                        }
                    }
                    assert(fin.wf());
                    assert forall|x: int| !fin.mem(x) by {
                        assert(!fin.submem(x));
                    }
                    assert forall|x: int| prior.mem(x) implies x == value as int by {
                        if prior.submem(x) {
                        }
                    }
                    assert(fin@ =~= prior@.remove(value as int));
                }
                return Ok(());
            } else {
                proof {
                    if prior.mem(value as int) {
                        if prior.submem(value as int) {
                            assert(false);
                        }
                        assert(false);
                    }
                    self.lemma_equiv_reflexive();
                    assert(final(self)@ =~= prior@.remove(value as int));
                }
                return Ok(());
            }
        }
        if self.children.len() == 0 {
            // a leaf with two distinct stored values holds exactly 0 and 1
            proof {
                assert(mn == 0 && mx == 1);
            }
            if value == mn {
                self.min = self.max;
            } else {
                proof {
                    assert(value == 1);
                }
                self.max = self.min;
            }
            proof {
                let fin = *self;
                assert(fin.wf());
                assert forall|x: int| !fin.submem(x) && !prior.submem(x) by {}
                assert(fin@ =~= prior@.remove(value as int));
            }
            return Ok(());
        }
        if value == mn {
            self.delete_from_tree(value);
            let ghost mid = *self;
            proof {
                assert(prior.submem(mx as int));
                assert(mid.submem(mx as int));
                assert(mid.children[mx as int / k].mem(mx as int % k));
                mid.children[mx as int / k].lemma_extrema();
                assert(mid.children[mx as int / k].min is Some);
                assert(mid.aux[0].mem(mx as int / k));
                assert(mid.aux[0]@.contains(mx as int / k));
                mid.aux[0].lemma_extrema();
            }
            let first_populated = self.aux[0].minimum();
            match first_populated {
                Some(first_cluster) => {
                    proof {
                        self.aux[0].lemma_mem_in_range(first_cluster as int);
                        assert forall|y: int| mid.aux[0].mem(y) implies first_cluster as int
                            <= y by {
                            assert(mid.aux[0]@.contains(y));
                        }
                    }
                    let new_min_off = self.children[first_cluster].minimum();
                    match new_min_off {
                        Some(m) => {
                            proof {
                                Self::lemma_cluster_scan_min(prior, *self, value, first_cluster, m);
                            }
                            let reconstructed = first_cluster * self.children.len() + m;
                            self.min = Some(reconstructed);
                            proof {
                                Self::lemma_same_substructure(mid, *self);
                                Self::lemma_delete_min_restores(
                                    prior,
                                    *self,
                                    value,
                                    reconstructed,
                                );
                            }
                            return Ok(());
                        },
                        None => {
                            // an occupied cluster always has a minimum: the
                            // auxiliary tree tracks exactly the non-empty clusters
                            proof {
                                assert(self.aux[0].mem(first_cluster as int));
                                assert(self.children[first_cluster as int].min is Some);
                                assert(false);
                            }
                            vstd::pervasive::unreached()
                        },
                    }
                },
                None => {
                    // the surviving maximum keeps its cluster occupied, so some
                    // cluster index is always left in the auxiliary tree here
                    proof {
                        assert(false);
                    }
                    vstd::pervasive::unreached()
                },
            }
        } else if value == mx {
            self.delete_from_tree(value);
            let ghost mid = *self;
            proof {
                assert(prior.submem(mn as int));
                assert(mid.submem(mn as int));
                assert(mid.children[mn as int / k].mem(mn as int % k));
                mid.children[mn as int / k].lemma_extrema();
                assert(mid.children[mn as int / k].min is Some);
                assert(mid.aux[0].mem(mn as int / k));
                assert(mid.aux[0]@.contains(mn as int / k));
                mid.aux[0].lemma_extrema();
            }
            let last_populated = self.aux[0].maximum();
            match last_populated {
                Some(last_cluster) => {
                    proof {
                        self.aux[0].lemma_mem_in_range(last_cluster as int);
                        assert forall|y: int| mid.aux[0].mem(y) implies y <= last_cluster
                            as int by {
                            assert(mid.aux[0]@.contains(y));
                        }
                    }
                    let new_max_off = self.children[last_cluster].maximum();
                    match new_max_off {
                        Some(m) => {
                            proof {
                                Self::lemma_cluster_scan_max(prior, *self, value, last_cluster, m);
                            }
                            let reconstructed = last_cluster * self.children.len() + m;
                            self.max = Some(reconstructed);
                            proof {
                                Self::lemma_same_substructure(mid, *self);
                                Self::lemma_delete_max_restores(
                                    prior,
                                    *self,
                                    value,
                                    reconstructed,
                                );
                            }
                            return Ok(());
                        },
                        None => {
                            // an occupied cluster always has a maximum: the
                            // auxiliary tree tracks exactly the non-empty clusters
                            proof {
                                assert(self.aux[0].mem(last_cluster as int));
                                assert(self.children[last_cluster as int].min is Some);
                                self.children[last_cluster as int].lemma_extrema();
                                assert(false);
                            }
                            vstd::pervasive::unreached()
                        },
                    }
                },
                None => {
                    // the surviving minimum keeps its cluster occupied, so some
                    // cluster index is always left in the auxiliary tree here
                    proof {
                        assert(false);
                    }
                    vstd::pervasive::unreached()
                },
            }
        } else if value < mx && value > mn {
            self.delete_from_tree(value);
            proof {
                let fin = *self;
                assert(prior.submem(mn as int));
                assert(prior.submem(mx as int));
                assert(fin.submem(mn as int));
                assert(fin.submem(mx as int));
                assert forall|x: int| #[trigger] fin.submem(x) implies (fin.min matches Some(m2)
                    && m2 as int <= x) && (fin.max matches Some(mx2) && x <= mx2 as int) by {
                    assert(prior.submem(x));
                }
                assert(fin.wf_cache());
                assert forall|x: int| #[trigger] fin.mem(x) <==> (prior.mem(x) && x != value
                    as int) by {
                    if prior.min matches Some(pm) && x == pm as int {
                        assert(prior.submem(x));
                        assert(fin.submem(x));
                    }
                    if prior.max matches Some(pmx) && x == pmx as int {
                        assert(prior.submem(x));
                        assert(fin.submem(x));
                    }
                    if fin.submem(x) {
                        assert(prior.submem(x));
                        assert(prior.mem(x));
                    }
                    if prior.submem(x) && x != value as int {
                        assert(fin.submem(x));
                    }
                }
                assert(fin@ =~= prior@.remove(value as int));
            }
            return Ok(());
        } else {
            // the value lies outside [minimum, maximum]: nothing to delete
            proof {
                if prior.mem(value as int) {
                    if prior.submem(value as int) {
                        assert(false);
                    }
                    assert(false);
                }
                self.lemma_equiv_reflexive();
                assert(final(self)@ =~= prior@.remove(value as int));
            }
            return Ok(());
        }
    }

    /// After deleting the cached minimum from the substructure, the value
    /// reconstructed from the first occupied cluster is the smallest value
    /// left there.
    proof fn lemma_cluster_scan_min(
        prior: VEBTree,
        mid: VEBTree,
        value: usize,
        first_cluster: usize,
        m: usize,
    )
        requires
            prior.wf(),
            mid.wf_sub(),
            mid.clusters() == prior.clusters(),
            mid.capacity == prior.capacity,
            prior.clusters() > 0,
            (value as int) < prior.cap(),
            forall|x: int|
                #[trigger] mid.submem(x) <==> prior.submem(x) && x != value as int,
            0 <= first_cluster as int && (first_cluster as int) < mid.clusters(),
            // the first occupied cluster, as the auxiliary tree reports it
            mid.aux[0].mem(first_cluster as int),
            forall|y: int| mid.aux[0].mem(y) ==> first_cluster as int <= y,
            // the smallest offset stored in that cluster
            mid.children[first_cluster as int].spec_minimum() == Some(m),
        ensures
            (first_cluster as int) * mid.clusters() + (m as int) < prior.cap(),
            mid.submem((first_cluster as int) * mid.clusters() + m as int),
            forall|x: int|
                #[trigger] mid.submem(x) ==> (first_cluster as int) * mid.clusters() + m as int
                    <= x,
    {
        let k = mid.clusters();
        let fc = first_cluster as int;
        let child = mid.children[fc];
        child.lemma_extrema();
        assert(child.mem(m as int));
        child.lemma_mem_in_range(m as int);
        assert((m as int) < k);
        let v = fc * k + m as int;
        lemma_combine(fc, m as int, k);
        assert(mid.submem(v));
        assert(prior.submem(v));
        assert forall|x: int| #[trigger] mid.submem(x) implies v <= x by {
            lemma_div_mod_split(x, k);
            let cx = x / k;
            assert(0 <= cx < k);
            assert(mid.children[cx].mem(x % k));
            assert(mid.children[cx].wf());
            mid.children[cx].lemma_extrema();
            assert(mid.children[cx].spec_minimum() is Some);
            assert(mid.children[cx].min is Some);
            assert(mid.aux[0].mem(cx));
            assert(fc <= cx);
            if cx == fc {
                assert(mid.children[cx].spec_minimum() == Some(m));
                assert(m as int <= x % k);
            }
            lemma_split_order(x, v, k);
        }
        assert(prior.max matches Some(pmx) && v <= pmx as int && (pmx as int) < prior.cap());
    }

    /// After deleting the cached maximum from the substructure, the value
    /// reconstructed from the last occupied cluster is the largest value
    /// left there.
    proof fn lemma_cluster_scan_max(
        prior: VEBTree,
        mid: VEBTree,
        value: usize,
        last_cluster: usize,
        m: usize,
    )
        requires
            prior.wf(),
            mid.wf_sub(),
            mid.clusters() == prior.clusters(),
            mid.capacity == prior.capacity,
            prior.clusters() > 0,
            (value as int) < prior.cap(),
            forall|x: int|
                #[trigger] mid.submem(x) <==> prior.submem(x) && x != value as int,
            0 <= last_cluster as int && (last_cluster as int) < mid.clusters(),
            // the last occupied cluster, as the auxiliary tree reports it
            mid.aux[0].mem(last_cluster as int),
            forall|y: int| mid.aux[0].mem(y) ==> y <= last_cluster as int,
            // the largest offset stored in that cluster
            mid.children[last_cluster as int].spec_maximum() == Some(m),
        ensures
            (last_cluster as int) * mid.clusters() + (m as int) < prior.cap(),
            mid.submem((last_cluster as int) * mid.clusters() + m as int),
            forall|x: int|
                #[trigger] mid.submem(x) ==> x <= (last_cluster as int) * mid.clusters() + m
                    as int,
    {
        let k = mid.clusters();
        let lc = last_cluster as int;
        let child = mid.children[lc];
        child.lemma_extrema();
        assert(child.mem(m as int));
        child.lemma_mem_in_range(m as int);
        assert((m as int) < k);
        let v = lc * k + m as int;
        lemma_combine(lc, m as int, k);
        assert(mid.submem(v));
        assert(prior.submem(v));
        assert forall|x: int| #[trigger] mid.submem(x) implies x <= v by {
            lemma_div_mod_split(x, k);
            let cx = x / k;
            assert(0 <= cx < k);
            assert(mid.children[cx].mem(x % k));
            assert(mid.children[cx].wf());
            mid.children[cx].lemma_extrema();
            assert(mid.children[cx].spec_minimum() is Some);
            assert(mid.children[cx].min is Some);
            assert(mid.aux[0].mem(cx));
            assert(cx <= lc);
            if cx == lc {
                assert(mid.children[cx].spec_maximum() == Some(m));
                assert(x % k <= m as int);
            }
            lemma_split_order(v, x, k);
        }
        assert(prior.max matches Some(pmx) && v <= pmx as int && (pmx as int) < prior.cap());
    }

    /// After withdrawing the cached minimum and recomputing it from the
    /// first occupied cluster, the tree is well formed again and stores
    /// exactly the old values minus the withdrawn one.
    proof fn lemma_delete_min_restores(prior: VEBTree, fin: VEBTree, value: usize, new_min: usize)
        requires
            prior.wf(),
            fin.wf_sub(),
            fin.clusters() == prior.clusters(),
            fin.capacity == prior.capacity,
            prior.clusters() > 0,
            (value as int) < prior.cap(),
            prior.min == Some(value),
            prior.max is Some,
            prior.min != prior.max,
            forall|x: int|
                #[trigger] fin.submem(x) <==> prior.submem(x) && x != value as int,
            fin.min == Some(new_min),
            fin.max == prior.max,
            fin.submem(new_min as int),
            forall|x: int| #[trigger] fin.submem(x) ==> new_min as int <= x,
        ensures
            fin.wf(),
            fin@ == prior@.remove(value as int),
    {
        let mx = prior.max->Some_0;
        assert(prior.submem(mx as int));
        assert(fin.submem(mx as int));
        assert(new_min as int <= mx as int);
        assert forall|x: int| #[trigger] fin.submem(x) implies x <= mx as int by {
            assert(prior.submem(x));
        }
        assert(fin.wf_cache());
        assert forall|x: int| #[trigger] fin.mem(x) <==> (prior.mem(x) && x != value as int) by {
            if fin.submem(x) {
                assert(prior.submem(x));
                assert(prior.mem(x));
            }
            if prior.submem(x) && x != value as int {
                assert(fin.submem(x));
            }
            if x == value as int {
                assert(!fin.submem(x));
                assert(fin.min matches Some(fm) && new_min as int <= mx as int);
                if fin.mem(x) {
                    assert(x == new_min as int || x == mx as int);
                    assert(fin.submem(x));
                    assert(false);
                }
            }
            if prior.min matches Some(pm) && x == pm as int {
                assert(prior.submem(x));
            }
            if prior.max matches Some(pmx) && x == pmx as int {
                assert(prior.submem(x));
            }
        }
        assert(fin@ =~= prior@.remove(value as int));
    }

    /// After withdrawing the cached maximum and recomputing it from the
    /// last occupied cluster, the tree is well formed again and stores
    /// exactly the old values minus the withdrawn one.
    proof fn lemma_delete_max_restores(prior: VEBTree, fin: VEBTree, value: usize, new_max: usize)
        requires
            prior.wf(),
            fin.wf_sub(),
            fin.clusters() == prior.clusters(),
            fin.capacity == prior.capacity,
            prior.clusters() > 0,
            (value as int) < prior.cap(),
            prior.max == Some(value),
            prior.min is Some,
            prior.min != prior.max,
            forall|x: int|
                #[trigger] fin.submem(x) <==> prior.submem(x) && x != value as int,
            fin.max == Some(new_max),
            fin.min == prior.min,
            fin.submem(new_max as int),
            forall|x: int| #[trigger] fin.submem(x) ==> x <= new_max as int,
        ensures
            fin.wf(),
            fin@ == prior@.remove(value as int),
    {
        let mn = prior.min->Some_0;
        assert(prior.submem(mn as int));
        assert(fin.submem(mn as int));
        assert(mn as int <= new_max as int);
        assert forall|x: int| #[trigger] fin.submem(x) implies mn as int <= x by {
            assert(prior.submem(x));
        }
        assert(fin.wf_cache());
        assert forall|x: int| #[trigger] fin.mem(x) <==> (prior.mem(x) && x != value as int) by {
            if fin.submem(x) {
                assert(prior.submem(x));
                assert(prior.mem(x));
            }
            if prior.submem(x) && x != value as int {
                assert(fin.submem(x));
            }
            if x == value as int {
                assert(!fin.submem(x));
                if fin.mem(x) {
                    assert(x == new_max as int || x == mn as int);
                    assert(fin.submem(x));
                    assert(false);
                }
            }
            if prior.min matches Some(pm) && x == pm as int {
                assert(prior.submem(x));
            }
            if prior.max matches Some(pmx) && x == pmx as int {
                assert(prior.submem(x));
            }
        }
        assert(fin@ =~= prior@.remove(value as int));
    }

    /// After propagating `value` and refreshing the caches as `insert`
    /// does, the tree is well formed again and stores exactly the old
    /// values plus `value`.
    proof fn lemma_insert_restores(prior: VEBTree, fin: VEBTree, value: usize)
        requires
            prior.wf(),
            (value as int) < prior.cap(),
            !(prior.min matches Some(m) && m == value),
            !(prior.max matches Some(m) && m == value),
            fin.wf_sub(),
            fin.capacity == prior.capacity,
            fin.clusters() == prior.clusters(),
            forall|x: int|
                #[trigger] fin.submem(x) <==> prior.submem(x) || (prior.clusters() > 0 && x
                    == value as int),
            // how insert refreshes the caches
            match (prior.min, prior.max) {
                (Some(m), Some(mx)) => if value < m {
                    fin.min == Some(value) && fin.max == prior.max
                } else if value > mx {
                    fin.min == prior.min && fin.max == Some(value)
                } else {
                    fin.min == prior.min && fin.max == prior.max
                },
                (None, None) => fin.min == Some(value) && fin.max == Some(value),
                _ => false,
            },
        ensures
            fin.wf(),
            fin@ == prior@.insert(value as int),
    {
        if prior.clusters() == 0 {
            // at a leaf the universe has at most the two values 0 and 1
            match (prior.min, prior.max) {
                (Some(m), Some(mx)) => {
                    if value < m {
                        assert(m == mx);
                    } else if value > mx {
                        assert(m == mx);
                    } else {
                        assert(false);
                    }
                },
                (None, None) => {},
                _ => {
                    assert(false);
                },
            }
        } else {
            assert(fin.submem(value as int));
            match (prior.min, prior.max) {
                (Some(m), Some(mx)) => {
                    assert(prior.submem(m as int));
                    assert(prior.submem(mx as int));
                },
                (None, None) => {},
                _ => {
                    assert(false);
                },
            }
            assert forall|x: int| #[trigger] fin.submem(x) implies (fin.min matches Some(m2)
                && m2 as int <= x) && (fin.max matches Some(mx2) && x <= mx2 as int) by {
                if x != value as int {
                    assert(prior.submem(x));
                }
            }
            assert(fin.wf_cache());
        }
        assert forall|x: int| fin.mem(x) && x != value as int implies prior.mem(x) by {
            if fin.submem(x) {
                assert(prior.submem(x));
                assert(prior.mem(x));
            } else {
                if fin.min matches Some(fm) && x == fm as int {
                    assert(prior.min matches Some(pm) && pm as int == x);
                    assert(prior.mem(x));
                }
                if fin.max matches Some(fm) && x == fm as int {
                    assert(prior.max matches Some(pm) && pm as int == x);
                    assert(prior.mem(x));
                }
            }
        }
        assert forall|x: int| #[trigger] fin.mem(x) <==> (prior.mem(x) || x == value as int) by {
            if prior.clusters() == 0 {
                assert(!fin.submem(x));
                assert(!prior.submem(x));
            } else {
                if x == value as int {
                    assert(fin.submem(x));
                }
                if prior.min matches Some(m) && x == m as int {
                    assert(prior.submem(x));
                }
                if prior.max matches Some(mx) && x == mx as int {
                    assert(prior.submem(x));
                }
                if prior.submem(x) {
                    assert(fin.submem(x));
                }
            }
        }
        assert(fin@ =~= prior@.insert(value as int));
    }

    /// Returns the smallest stored value, or `None` when the tree is empty.
    pub fn minimum(&self) -> (r: Option<usize>)
        requires
            self.wf(),
        ensures
            r == self.spec_minimum(),
            r is None <==> self@ == Set::<int>::empty(),
            r matches Some(m) ==> self@.contains(m as int) && forall|v: int|
                self@.contains(v) ==> m as int <= v,
    {
        proof {
            self.lemma_extrema();
            if self.spec_minimum() is None {
                assert(self@ =~= Set::<int>::empty());
            } else {
                let m = self.spec_minimum()->Some_0;
                assert(self.mem(m as int));
                assert(self@.contains(m as int));
            }
        }
        self.min
    }

    /// Returns the largest stored value, or `None` when the tree is empty.
    pub fn maximum(&self) -> (r: Option<usize>)
        requires
            self.wf(),
        ensures
            r == self.spec_maximum(),
            r is None <==> self@ == Set::<int>::empty(),
            r matches Some(m) ==> self@.contains(m as int) && forall|v: int|
                self@.contains(v) ==> v <= m as int,
    {
        proof {
            self.lemma_extrema();
            if self.spec_maximum() is None {
                assert(self@ =~= Set::<int>::empty());
            } else {
                let m = self.spec_maximum()->Some_0;
                assert(self.mem(m as int));
                assert(self@.contains(m as int));
            }
        }
        self.max
    }

    /// Returns the smallest stored value strictly greater than `value`,
    /// or `None` when no such value is stored.  A value outside
    /// `[0, capacity)` is rejected with `None`.
    pub fn findnext(&self, value: usize) -> (r: Option<usize>)
        requires
            self.wf(),
        ensures
            (value as int) >= self.cap() ==> r is None,
            r matches Some(s) ==> crate::laws::is_successor(self@, value as int, s as int),
            (value as int) < self.cap() && r is None ==> forall|x: int|
                self@.contains(x) ==> x <= value as int,
        decreases self.cap(),
    {
        if value >= self.capacity {
            return None;
        }
        if self.children.len() == 0 {
            let mx = match self.max {
                Some(m) => m,
                None => {
                    proof {
                        self.lemma_extrema();
                    }
                    return None;
                },
            };
            if value == 0 && mx == 1 {
                proof {
                    assert(self.mem(1));
                    assert(self@.contains(1));
                }
                return self.max;
            } else {
                proof {
                    // at a leaf everything stored lies below the capacity of
                    // at most 2, so with no stored 1 above a queried 0 there
                    // is no successor at all
                    self.lemma_extrema();
                    assert forall|x: int| self.mem(x) implies x <= value as int by {
                        assert(!self.submem(x));
                        assert(x <= mx as int);
                        self.lemma_mem_in_range(x);
                    }
                }
                return None;
            }
        }
        proof {
            self.lemma_split(value as int);
            self.lemma_extrema();
        }
        let ghost k = self.clusters();
        match self.min {
            Some(mn) => {
                if value < mn {
                    proof {
                        assert(self.mem(mn as int));
                        assert forall|x: int| self.mem(x) && x > value as int implies mn as int
                            <= x by {}
                    }
                    return self.min;
                }
            },
            None => {},
        }
        let idx = self.high(value);
        let low_v = self.low(value);
        let ghost iv = idx as int;
        let ghost lv = low_v as int;
        let cur_cluster_max = self.children[idx].maximum();
        let ghost same_cluster_blocked = match cur_cluster_max {
            Some(cm) => lv >= cm as int,
            None => true,
        };
        match cur_cluster_max {
            Some(cmax) => {
                if low_v < cmax {
                    proof {
                        self.children[iv].lemma_extrema();
                        assert(self.children[iv].mem(cmax as int));
                        assert(self.children[iv]@.contains(cmax as int));
                    }
                    let offset = match self.children[idx].findnext(low_v) {
                        Some(o) => o,
                        None => {
                            // the cluster maximum exceeds the queried offset,
                            // so the recursive query cannot come back empty
                            proof {
                                assert(false);
                            }
                            vstd::pervasive::unreached()
                        },
                    };
                    proof {
                        assert(self.children[iv]@.contains(offset as int));
                        assert(self.children[iv].mem(offset as int));
                        self.children[iv].lemma_mem_in_range(offset as int);
                        lemma_combine(iv, offset as int, k);
                        assert(self.submem(iv * k + offset));
                        assert(self.mem(iv * k + offset));
                        self.lemma_mem_in_range(iv * k + offset);
                        lemma_split_order(value as int, iv * k + offset, k);
                    }
                    return match self.children[idx].search(offset) {
                        Some(n) => {
                            proof {
                                let s = iv * k + n as int;
                                assert(s == iv * k + offset);
                                assert forall|x: int| self.mem(x) && x > value as int implies s
                                    <= x by {
                                    Self::lemma_next_in_cluster(*self, value, iv, lv, offset, x);
                                }
                            }
                            Some(n + idx * self.children.len())
                        },
                        None => {
                            // the offset was just reported as stored, so the
                            // cross-checking search cannot miss it
                            proof {
                                assert(false);
                            }
                            vstd::pervasive::unreached()
                        },
                    };
                }
            },
            None => {},
        }
        proof {
            if self.children[iv].mem(lv) {
                self.children[iv].lemma_extrema();
                assert(cur_cluster_max is Some);
            }
        }
        let next_cluster = match self.aux[0].findnext(idx) {
            Some(nc) => nc,
            None => {
                proof {
                    // no later cluster is occupied and the own cluster tops
                    // out at the queried offset: there is no successor
                    assert forall|x: int| self.mem(x) implies x <= value as int by {
                        Self::lemma_no_next(*self, value, iv, lv, same_cluster_blocked, x);
                    }
                }
                return None;
            },
        };
        proof {
            assert(self.aux[0]@.contains(next_cluster as int));
            assert(self.aux[0].mem(next_cluster as int));
            self.aux[0].lemma_mem_in_range(next_cluster as int);
            assert(self.children[next_cluster as int].min is Some);
        }
        let offset = match self.children[next_cluster].minimum() {
            Some(o) => o,
            None => {
                // an occupied cluster always has a minimum: the auxiliary
                // tree tracks exactly the non-empty clusters
                proof {
                    assert(false);
                }
                vstd::pervasive::unreached()
            },
        };
        proof {
            let nc = next_cluster as int;
            assert(self.children[nc].mem(offset as int));
            self.children[nc].lemma_mem_in_range(offset as int);
            lemma_combine(nc, offset as int, k);
            assert(self.submem(nc * k + offset));
            assert(self.mem(nc * k + offset));
            self.lemma_mem_in_range(nc * k + offset);
            lemma_split_order(value as int, nc * k + offset, k);
        }
        match self.children[next_cluster].search(offset) {
            Some(n) => {
                proof {
                    let nc = next_cluster as int;
                    let s = nc * k + n as int;
                    assert(s == nc * k + offset);
                    assert forall|y: int| self.aux[0].mem(y) && y > iv implies next_cluster
                        as int <= y by {
                        assert(self.aux[0]@.contains(y));
                    }
                    assert forall|j: int| #[trigger] self.children[nc].mem(j) implies offset
                        as int <= j by {
                        assert(self.children[nc]@.contains(j));
                    }
                    assert forall|x: int| self.mem(x) && x > value as int implies s <= x by {
                        Self::lemma_next_in_later_cluster(
                            *self,
                            value,
                            iv,
                            lv,
                            same_cluster_blocked,
                            next_cluster as int,
                            offset as int,
                            x,
                        );
                    }
                }
                Some(n + next_cluster * self.children.len())
            },
            None => {
                // the offset was just reported as stored, so the
                // cross-checking search cannot miss it
                proof {
                    assert(false);
                }
                vstd::pervasive::unreached()
            },
        }
    }

    /// Returns the largest stored value strictly smaller than `value`,
    /// or `None` when no such value is stored.  A value outside
    /// `[0, capacity)` is rejected with `None`.
    pub fn findprev(&self, value: usize) -> (r: Option<usize>)
        requires
            self.wf(),
        ensures
            (value as int) >= self.cap() ==> r is None,
            r matches Some(p) ==> crate::laws::is_predecessor(self@, value as int, p as int),
            (value as int) < self.cap() && r is None ==> forall|x: int|
                self@.contains(x) ==> x >= value as int,
        decreases self.cap(),
    {
        if value >= self.capacity {
            return None;
        }
        if self.children.len() == 0 {
            let mn = match self.min {
                Some(m) => m,
                None => {
                    proof {
                        self.lemma_extrema();
                    }
                    return None;
                },
            };
            if value == 1 && mn == 0 {
                proof {
                    assert(self.mem(0));
                    assert(self@.contains(0));
                }
                return self.min;
            } else {
                proof {
                    // at a leaf everything stored lies in {0, 1}, so with no
                    // stored 0 below a queried 1 there is no predecessor
                    self.lemma_extrema();
                    assert forall|x: int| self.mem(x) implies x >= value as int by {
                        assert(mn as int <= x || x == mn as int);
                        self.lemma_mem_in_range(x);
                    }
                }
                return None;
            }
        }
        proof {
            self.lemma_split(value as int);
            self.lemma_extrema();
        }
        let ghost k = self.clusters();
        match self.max {
            Some(mxx) => {
                if value > mxx {
                    proof {
                        assert(self.mem(mxx as int));
                        assert forall|x: int| self.mem(x) && x < value as int implies x
                            <= mxx as int by {}
                    }
                    return self.max;
                }
            },
            None => {},
        }
        let idx = self.high(value);
        let low_v = self.low(value);
        let ghost iv = idx as int;
        let ghost lv = low_v as int;
        let cur_cluster_min = self.children[idx].minimum();
        let ghost same_cluster_blocked = match cur_cluster_min {
            Some(cm) => lv <= cm as int,
            None => true,
        };
        match cur_cluster_min {
            Some(cmin) => {
                if low_v > cmin {
                    proof {
                        self.children[iv].lemma_extrema();
                        assert(self.children[iv].mem(cmin as int));
                        assert(self.children[iv]@.contains(cmin as int));
                    }
                    let offset = match self.children[idx].findprev(low_v) {
                        Some(o) => o,
                        None => {
                            // the cluster minimum undercuts the queried offset,
                            // so the recursive query cannot come back empty
                            proof {
                                assert(false);
                            }
                            vstd::pervasive::unreached()
                        },
                    };
                    proof {
                        assert(self.children[iv]@.contains(offset as int));
                        assert(self.children[iv].mem(offset as int));
                        self.children[iv].lemma_mem_in_range(offset as int);
                        lemma_combine(iv, offset as int, k);
                        assert(self.submem(iv * k + offset));
                        assert(self.mem(iv * k + offset));
                        self.lemma_mem_in_range(iv * k + offset);
                        lemma_split_order(iv * k + offset, value as int, k);
                    }
                    return match self.children[idx].search(offset) {
                        Some(n) => {
                            proof {
                                let s = iv * k + n as int;
                                assert(s == iv * k + offset);
                                assert forall|x: int| self.mem(x) && x < value as int implies x
                                    <= s by {
                                    Self::lemma_prev_in_cluster(*self, value, iv, lv, offset, x);
                                }
                            }
                            Some(n + idx * self.children.len())
                        },
                        None => {
                            // the offset was just reported as stored, so the
                            // cross-checking search cannot miss it
                            proof {
                                assert(false);
                            }
                            vstd::pervasive::unreached()
                        },
                    };
                }
            },
            None => {},
        }
        let prev_cluster = match self.aux[0].findprev(idx) {
            Some(pc) => pc,
            None => {
                proof {
                    // no earlier cluster is occupied and the own cluster
                    // starts at the queried offset: there is no predecessor
                    assert forall|x: int| self.mem(x) implies x >= value as int by {
                        Self::lemma_no_prev(*self, value, iv, lv, same_cluster_blocked, x);
                    }
                }
                return None;
            },
        };
        proof {
            assert(self.aux[0]@.contains(prev_cluster as int));
            assert(self.aux[0].mem(prev_cluster as int));
            self.aux[0].lemma_mem_in_range(prev_cluster as int);
            assert(self.children[prev_cluster as int].min is Some);
            self.children[prev_cluster as int].lemma_extrema();
        }
        let offset = match self.children[prev_cluster].maximum() {
            Some(o) => o,
            None => {
                // an occupied cluster always has a maximum: the auxiliary
                // tree tracks exactly the non-empty clusters
                proof {
                    assert(false);
                }
                vstd::pervasive::unreached()
            },
        };
        proof {
            let pc = prev_cluster as int;
            assert(self.children[pc].mem(offset as int));
            self.children[pc].lemma_mem_in_range(offset as int);
            lemma_combine(pc, offset as int, k);
            assert(self.submem(pc * k + offset));
            assert(self.mem(pc * k + offset));
            self.lemma_mem_in_range(pc * k + offset);
            lemma_split_order(pc * k + offset, value as int, k);
        }
        match self.children[prev_cluster].search(offset) {
            Some(n) => {
                proof {
                    let pc = prev_cluster as int;
                    let s = pc * k + n as int;
                    assert(s == pc * k + offset);
                    assert forall|y: int| self.aux[0].mem(y) && y < iv implies y <= pc by {
                        assert(self.aux[0]@.contains(y));
                    }
                    assert forall|j: int| #[trigger] self.children[pc].mem(j) implies j
                        <= offset as int by {
                        assert(self.children[pc]@.contains(j));
                    }
                    assert forall|x: int| self.mem(x) && x < value as int implies x <= s by {
                        Self::lemma_prev_in_earlier_cluster(
                            *self,
                            value,
                            iv,
                            lv,
                            same_cluster_blocked,
                            pc,
                            offset as int,
                            x,
                        );
                    }
                }
                Some(n + prev_cluster * self.children.len())
            },
            None => {
                // the offset was just reported as stored, so the
                // cross-checking search cannot miss it
                proof {
                    assert(false);
                }
                vstd::pervasive::unreached()
            },
        }
    }

    /// A stored value below the query whose cluster holds a predecessor of
    /// the query's offset is bounded above by that predecessor.
    proof fn lemma_prev_in_cluster(
        t: VEBTree,
        value: usize,
        iv: int,
        lv: int,
        offset: usize,
        x: int,
    )
        requires
            t.wf(),
            t.clusters() > 0,
            (value as int) < t.cap(),
            iv == value as int / t.clusters(),
            lv == value as int % t.clusters(),
            t.children[iv].mem(offset as int),
            (offset as int) < lv,
            forall|j: int|
                t.children[iv]@.contains(j) && j < lv ==> j <= offset as int,
            t.mem(x),
            x < value as int,
        ensures
            x <= iv * t.clusters() + offset as int,
    {
        let k = t.clusters();
        t.lemma_split(value as int);
        t.children[iv].lemma_mem_in_range(offset as int);
        let s = iv * k + offset as int;
        lemma_combine(iv, offset as int, k);
        if t.min matches Some(mn) && x == mn as int {
            assert(t.submem(x));
        }
        if t.max matches Some(mx) && x == mx as int {
            assert(t.submem(x));
        }
        assert(t.submem(x));
        lemma_div_mod_split(x, k);
        let cx = x / k;
        lemma_split_order(x, value as int, k);
        if cx == iv {
            assert(t.children[cx].mem(x % k));
            assert(t.children[cx]@.contains(x % k));
            assert(x % k < lv);
            assert(x % k <= offset as int);
            lemma_split_order(x, s, k);
            assert(x <= s);
        } else {
            assert(cx < iv);
            lemma_split_order(x, s, k);
            assert(x <= s);
        }
    }

    /// With the own cluster starting at the queried offset and no earlier
    /// cluster occupied, every stored value is at least the query.
    proof fn lemma_no_prev(
        t: VEBTree,
        value: usize,
        iv: int,
        lv: int,
        same_cluster_blocked: bool,
        x: int,
    )
        requires
            t.wf(),
            t.clusters() > 0,
            (value as int) < t.cap(),
            iv == value as int / t.clusters(),
            lv == value as int % t.clusters(),
            same_cluster_blocked,
            t.children[iv].spec_minimum() matches Some(cm) ==> lv <= cm as int,
            forall|y: int| t.aux[0]@.contains(y) ==> y >= iv,
            t.mem(x),
        ensures
            x >= value as int,
    {
        let k = t.clusters();
        t.lemma_split(value as int);
        if t.min matches Some(mn) && x == mn as int {
            assert(t.submem(x));
        }
        if t.max matches Some(mx) && x == mx as int {
            assert(t.submem(x));
        }
        assert(t.submem(x));
        lemma_div_mod_split(x, k);
        let cx = x / k;
        assert(t.children[cx].mem(x % k));
        t.children[cx].lemma_extrema();
        assert(t.children[cx].min is Some);
        assert(t.aux[0].mem(cx));
        assert(t.aux[0]@.contains(cx));
        assert(cx >= iv);
        if cx == iv {
            t.children[iv].lemma_extrema();
            assert(t.children[iv].spec_minimum() is Some);
            assert(x % k >= lv);
        }
        lemma_split_order(x, value as int, k);
        assert(!(x < value as int));
    }

    /// A stored value below the query, when the query's own cluster starts
    /// at its offset, is bounded above by the maximum of the last occupied
    /// earlier cluster.
    proof fn lemma_prev_in_earlier_cluster(
        t: VEBTree,
        value: usize,
        iv: int,
        lv: int,
        same_cluster_blocked: bool,
        pc: int,
        offset: int,
        x: int,
    )
        requires
            t.wf(),
            t.clusters() > 0,
            (value as int) < t.cap(),
            iv == value as int / t.clusters(),
            lv == value as int % t.clusters(),
            same_cluster_blocked,
            t.children[iv].spec_minimum() matches Some(cm) ==> lv <= cm as int,
            0 <= pc < iv,
            t.children[pc].mem(offset),
            0 <= offset < t.clusters(),
            forall|y: int| t.aux[0].mem(y) && y < iv ==> y <= pc,
            forall|j: int| #[trigger] t.children[pc].mem(j) ==> j <= offset,
            t.mem(x),
            x < value as int,
        ensures
            x <= pc * t.clusters() + offset,
    {
        let k = t.clusters();
        t.lemma_split(value as int);
        let s = pc * k + offset;
        lemma_combine(pc, offset, k);
        if t.min matches Some(mn) && x == mn as int {
            assert(t.submem(x));
        }
        if t.max matches Some(mx) && x == mx as int {
            assert(t.submem(x));
        }
        assert(t.submem(x));
        lemma_div_mod_split(x, k);
        let cx = x / k;
        assert(t.children[cx].mem(x % k));
        t.children[cx].lemma_extrema();
        assert(t.children[cx].min is Some);
        assert(t.aux[0].mem(cx));
        lemma_split_order(x, value as int, k);
        if cx == iv {
            t.children[iv].lemma_extrema();
            assert(t.children[iv].spec_minimum() is Some);
            assert(x % k >= lv);
            assert(false);
        }
        assert(cx < iv);
        assert(cx <= pc);
        if cx == pc {
            assert(x % k <= offset);
            lemma_split_order(x, s, k);
        } else {
            lemma_split_order(x, s, k);
        }
        assert(x <= s);
    }

    /// Structurally equal trees store the same values: the converse of
    /// `lemma_same_elements_equiv`.
    pub proof fn lemma_equiv_same_elements(t: VEBTree, u: VEBTree)
        requires
            t.equiv(u),
        ensures
            forall|x: int| #![trigger t.mem(x)] #![trigger u.mem(x)] t.mem(x) == u.mem(x),
        decreases t,
    {
        assert forall|x: int| #![trigger t.mem(x)] #![trigger u.mem(x)] t.mem(x) == u.mem(x) by {
            assert(t.clusters() == u.clusters());
            let k = t.clusters();
            if k > 0 && 0 <= x && x / k < k {
                Self::lemma_equiv_same_elements(t.children[x / k], u.children[x / k]);
                assert(t.children[x / k].mem(x % k) == u.children[x / k].mem(x % k));
            }
        }
    }

    /// The representation is canonical: two well-formed trees of the same
    /// capacity that store the same values are structurally equal, field by
    /// field and cluster by cluster.
    ///
    /// This is the round-trip law.  Inserting any values into a freshly
    /// constructed tree and then deleting every one of them, in any order,
    /// leaves a well-formed tree of the same capacity whose stored set is
    /// empty again, by the contracts of `insert` and `delete`; by this
    /// lemma that tree is structurally equal to a freshly constructed
    /// empty tree of the same capacity.
    pub proof fn lemma_same_elements_equiv(t: VEBTree, u: VEBTree)
        requires
            t.wf(),
            u.wf(),
            t.cap() == u.cap(),
            t@ == u@,
        ensures
            t.equiv(u),
        decreases t,
    {
        assert forall|x: int| t.mem(x) == u.mem(x) by {
            assert(t@.contains(x) == t.mem(x));
            assert(u@.contains(x) == u.mem(x));
            assert(t@.contains(x) == u@.contains(x));
        }
        t.lemma_extrema();
        u.lemma_extrema();
        match t.min {
            Some(m) => {
                assert(t.mem(m as int));
                assert(u.mem(m as int));
                assert(u.spec_minimum() is Some);
                let m2 = u.spec_minimum()->Some_0;
                assert(u.mem(m2 as int));
                assert(t.mem(m2 as int));
                assert(m2 as int <= m as int && m as int <= m2 as int);
                assert(t.min == u.min);
            },
            None => {
                assert forall|x: int| !u.mem(x) by {
                    assert(!t.mem(x));
                }
                assert(u.spec_minimum() is None);
                assert(t.min == u.min);
            },
        }
        match t.max {
            Some(m) => {
                assert(t.mem(m as int));
                assert(u.mem(m as int));
                assert(u.spec_maximum() is Some);
                let m2 = u.spec_maximum()->Some_0;
                assert(u.mem(m2 as int));
                assert(t.mem(m2 as int));
                assert(m2 as int <= m as int && m as int <= m2 as int);
                assert(t.max == u.max);
            },
            None => {
                assert(t.max == u.max);
            },
        }
        assert(t.capacity == u.capacity);
        if t.clusters() == 0 {
            assert(t.cap() <= 2);
            assert(u.clusters() == 0);
            assert(t.equiv(u));
        } else {
            assert(t.cap() > 2);
            assert(u.clusters() > 0);
            lemma_ceil_sqrt_unique(t.clusters(), u.clusters(), t.cap());
            let k = t.clusters();
            assert(u.clusters() == k);
            assert forall|i: int| 0 <= i < k implies (#[trigger] t.children[i]).equiv(
                u.children[i],
            ) by {
                assert forall|j: int| t.children[i].mem(j) == u.children[i].mem(j) by {
                    if t.children[i].mem(j) {
                        t.children[i].lemma_mem_in_range(j);
                        lemma_combine(i, j, k);
                        assert(t.submem(i * k + j));
                        assert(t.mem(i * k + j));
                        assert(u.mem(i * k + j));
                        if u.min matches Some(m) && i * k + j == m as int {
                            assert(u.submem(i * k + j));
                        }
                        if u.max matches Some(m) && i * k + j == m as int {
                            assert(u.submem(i * k + j));
                        }
                        assert(u.submem(i * k + j));
                        assert(u.children[i].mem(j));
                    }
                    if u.children[i].mem(j) {
                        u.children[i].lemma_mem_in_range(j);
                        lemma_combine(i, j, k);
                        assert(u.submem(i * k + j));
                        assert(u.mem(i * k + j));
                        assert(t.mem(i * k + j));
                        if t.min matches Some(m) && i * k + j == m as int {
                            assert(t.submem(i * k + j));
                        }
                        if t.max matches Some(m) && i * k + j == m as int {
                            assert(t.submem(i * k + j));
                        }
                        assert(t.submem(i * k + j));
                        assert(t.children[i].mem(j));
                    }
                }
                assert(t.children[i]@ =~= u.children[i]@);
                Self::lemma_same_elements_equiv(t.children[i], u.children[i]);
            }
            assert forall|y: int| t.aux[0].mem(y) == u.aux[0].mem(y) by {
                if t.aux[0].mem(y) {
                    t.aux[0].lemma_mem_in_range(y);
                    assert(t.children[y].min is Some);
                    assert(t.children[y].equiv(u.children[y]));
                    assert(u.children[y].min is Some);
                    assert(u.aux[0].mem(y));
                }
                if u.aux[0].mem(y) {
                    u.aux[0].lemma_mem_in_range(y);
                    assert(u.children[y].min is Some);
                    assert(t.children[y].equiv(u.children[y]));
                    assert(t.children[y].min is Some);
                    assert(t.aux[0].mem(y));
                }
            }
            assert(t.aux[0]@ =~= u.aux[0]@);
            Self::lemma_same_elements_equiv(t.aux[0], u.aux[0]);
            assert forall|i: int| 0 <= i < t.aux.len() implies (#[trigger] t.aux[i]).equiv(
                u.aux[i],
            ) by {
                assert(i == 0);
            }
            assert(t.equiv(u));
        }
    }

    /// A stored value above the query whose cluster holds a successor of
    /// the query's offset is bounded below by that successor.
    proof fn lemma_next_in_cluster(
        t: VEBTree,
        value: usize,
        iv: int,
        lv: int,
        offset: usize,
        x: int,
    )
        requires
            t.wf(),
            t.clusters() > 0,
            (value as int) < t.cap(),
            iv == value as int / t.clusters(),
            lv == value as int % t.clusters(),
            t.children[iv].mem(offset as int),
            lv < offset as int,
            (offset as int) < t.clusters(),
            forall|j: int|
                t.children[iv]@.contains(j) && j > lv ==> offset as int <= j,
            t.mem(x),
            x > value as int,
        ensures
            iv * t.clusters() + offset as int <= x,
    {
        let k = t.clusters();
        t.lemma_split(value as int);
        let s = iv * k + offset as int;
        lemma_combine(iv, offset as int, k);
        if t.min matches Some(mn) && x == mn as int {
            t.lemma_extrema();
            assert(t.submem(x));
        }
        if t.max matches Some(mx) && x == mx as int {
            assert(t.submem(x));
        }
        assert(t.submem(x));
        lemma_div_mod_split(x, k);
        let cx = x / k;
        lemma_split_order(value as int, x, k);
        if cx == iv {
            assert(t.children[cx].mem(x % k));
            assert(t.children[cx]@.contains(x % k));
            assert(x % k > lv);
            assert(offset as int <= x % k);
            lemma_split_order(s, x, k);
            assert(s <= x);
        } else {
            assert(cx > iv);
            lemma_split_order(s, x, k);
            assert(s <= x);
        }
    }

    /// With the own cluster topped out at the queried offset and no later
    /// cluster occupied, every stored value is at most the query.
    proof fn lemma_no_next(
        t: VEBTree,
        value: usize,
        iv: int,
        lv: int,
        same_cluster_blocked: bool,
        x: int,
    )
        requires
            t.wf(),
            t.clusters() > 0,
            (value as int) < t.cap(),
            iv == value as int / t.clusters(),
            lv == value as int % t.clusters(),
            same_cluster_blocked,
            t.children[iv].spec_maximum() matches Some(cm) ==> lv >= cm as int,
            forall|y: int| t.aux[0]@.contains(y) ==> y <= iv,
            t.mem(x),
        ensures
            x <= value as int,
    {
        let k = t.clusters();
        t.lemma_split(value as int);
        if t.min matches Some(mn) && x == mn as int {
            assert(t.submem(x));
        }
        if t.max matches Some(mx) && x == mx as int {
            assert(t.submem(x));
        }
        assert(t.submem(x));
        lemma_div_mod_split(x, k);
        let cx = x / k;
        assert(t.children[cx].mem(x % k));
        t.children[cx].lemma_extrema();
        assert(t.children[cx].min is Some);
        assert(t.aux[0].mem(cx));
        assert(t.aux[0]@.contains(cx));
        assert(cx <= iv);
        if cx == iv {
            t.children[iv].lemma_extrema();
            assert(t.children[iv].spec_maximum() is Some);
            assert(x % k <= lv);
        }
        lemma_split_order(value as int, x, k);
        assert(!(x > value as int));
    }

    /// A stored value above the query, when the query's own cluster tops
    /// out at its offset, is bounded below by the minimum of the first
    /// occupied later cluster.
    proof fn lemma_next_in_later_cluster(
        t: VEBTree,
        value: usize,
        iv: int,
        lv: int,
        same_cluster_blocked: bool,
        nc: int,
        offset: int,
        x: int,
    )
        requires
            t.wf(),
            t.clusters() > 0,
            (value as int) < t.cap(),
            iv == value as int / t.clusters(),
            lv == value as int % t.clusters(),
            same_cluster_blocked,
            t.children[iv].spec_maximum() matches Some(cm) ==> lv >= cm as int,
            iv < nc < t.clusters(),
            t.children[nc].mem(offset),
            0 <= offset < t.clusters(),
            forall|y: int| t.aux[0].mem(y) && y > iv ==> nc <= y,
            forall|j: int| #[trigger] t.children[nc].mem(j) ==> offset <= j,
            t.mem(x),
            x > value as int,
        ensures
            nc * t.clusters() + offset <= x,
    {
        let k = t.clusters();
        t.lemma_split(value as int);
        let s = nc * k + offset;
        lemma_combine(nc, offset, k);
        if t.min matches Some(mn) && x == mn as int {
            assert(t.submem(x));
        }
        if t.max matches Some(mx) && x == mx as int {
            assert(t.submem(x));
        }
        assert(t.submem(x));
        lemma_div_mod_split(x, k);
        let cx = x / k;
        assert(t.children[cx].mem(x % k));
        t.children[cx].lemma_extrema();
        assert(t.children[cx].min is Some);
        assert(t.aux[0].mem(cx));
        lemma_split_order(value as int, x, k);
        if cx == iv {
            t.children[iv].lemma_extrema();
            assert(t.children[iv].spec_maximum() is Some);
            assert(x % k <= lv);
            assert(false);
        }
        assert(cx > iv);
        assert(nc <= cx);
        if cx == nc {
            assert(offset <= x % k);
            lemma_split_order(s, x, k);
        } else {
            lemma_split_order(s, x, k);
        }
        assert(s <= x);
    }
}

} // verus!
