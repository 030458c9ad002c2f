//! The tree itself: its layout, the invariant that every node satisfies, the
//! set of keys it stands for, and its construction.

use crate::order::{is_greatest, is_least};
use crate::split::{
    high, index, is_upper_root, lemma_join, lemma_pow2_shift, lemma_split,
    lemma_upper_root_below, lemma_upper_root_fits, low, upper_root,
};
use vstd::arithmetic::power2::is_pow2;
use vstd::bits::{lemma_u64_low_bits_mask_is_mod, lemma_u64_shl_is_mul, lemma_u64_shr_is_div};
use vstd::prelude::*;
use vstd::std_specs::bits::u64_trailing_zeros;

verus! {

/// Why a tree could not be built.
#[derive(Debug, Clone, Copy, PartialEq, Eq, Structural)]
pub enum VebError {
    /// The universe holds fewer than two keys.
    InvalidUniverse,
    /// The universe does not fit the platform's signed pointer-sized integer.
    UniverseTooLarge,
}

/// A set of keys from `0..universe`.
///
/// The smallest key of a node is kept in the node itself and in none of its
/// clusters; every other key `x` lives in cluster `high(x)` at position
/// `low(x)`. The summary holds the indices of the clusters that are present.
#[derive(Debug)]
pub struct VEBTree {
    pub(crate) children: Vec<Option<VEBTree>>,
    pub(crate) summary: Option<Box<VEBTree>>,
    // An empty node has `min == universe` and `max == -1`; a node with one key
    // has `min == max`.
    pub(crate) min: i64,
    pub(crate) max: i64,
    pub(crate) universe: i64,
    pub(crate) sqrt_universe: i64,
}

impl View for VEBTree {
    type V = Set<int>;

    /// The keys that the tree holds.
    open(crate) spec fn view(&self) -> Set<int> {
        Set::new(|x: int| self.mem(x))
    }
}

impl VEBTree {
    /// The exclusive upper bound of the keys.
    pub open(crate) spec fn spec_universe(&self) -> i64 {
        self.universe
    }

    /// The node holds no key.
    pub(crate) open spec fn vacant(&self) -> bool {
        self.min > self.max
    }

    /// Cluster `k`, if there is such a slot and it is occupied.
    pub(crate) open spec fn cluster(&self, k: int) -> Option<VEBTree> {
        if 0 <= k < self.children.len() {
            self.children[k]
        } else {
            None
        }
    }

    /// The keys of cluster `k`, as positions inside the cluster.
    pub(crate) open spec fn cluster_keys(&self, k: int) -> Set<int> {
        match self.cluster(k) {
            Some(c) => c@,
            None => Set::empty(),
        }
    }

    /// The smallest key that sits in a cluster: the minimum of the first
    /// cluster that is present.
    pub(crate) open spec fn first_cluster_key(&self) -> int {
        let j = self.summary->0.min as int;
        index(j, self.children[j]->0.min as int, self.sqrt_universe as int)
    }

    /// The largest key that sits in a cluster: the maximum of the last
    /// cluster that is present.
    pub(crate) open spec fn last_cluster_key(&self) -> int {
        let j = self.summary->0.max as int;
        index(j, self.children[j]->0.max as int, self.sqrt_universe as int)
    }

    /// Key `x` is stored in this node or below it.
    pub(crate) open spec fn mem(&self, x: int) -> bool
        decreases self,
    {
        let w = self.sqrt_universe as int;
        &&& self.min <= self.max
        &&& (x == self.min || if self.universe <= 2 {
            x == self.max
        } else {
            let k = high(x, w);
            &&& 0 <= k < self.children.len()
            &&& self.children[k] matches Some(c)
            &&& c.mem(low(x, w))
        })
    }

    /// The representation invariant of a node and of every node below it.
    ///
    /// A node that satisfies it is the only way to lay out its keys in its
    /// universe (see `lemma_canonical`).
    pub open(crate) spec fn wf(&self) -> bool
        decreases self,
    {
        let w = self.sqrt_universe as int;
        // The universe holds two keys or more and is cut into clusters of the
        // width that belongs to it, with one slot for each cluster.
        &&& 2 <= self.universe <= isize::MAX
        &&& is_upper_root(w, self.universe as int)
        &&& self.children.len() == w
        // The extremes are both absent, spelt in one way only, or both keys
        // of the universe.
        &&& if self.min > self.max {
            self.min == self.universe && self.max == -1
        } else {
            0 <= self.min && self.max < self.universe
        }
        &&& match self.summary {
            // A universe of two has neither summary nor clusters: its keys
            // are its extremes.
            None => {
                &&& self.universe == 2
                &&& forall|i: int|
                    0 <= i < self.children.len() ==> (#[trigger] self.children[i]) is None
            },
            Some(sm) => {
                &&& self.universe > 2
                &&& sm.wf()
                &&& sm.universe == w
                // The summary holds the indices of the clusters that are
                // present. A cluster that is present is well formed over the
                // cluster width and holds a key; its keys lie above the
                // minimum, which is in no cluster, and not above the maximum.
                &&& forall|i: int|
                    0 <= i < self.children.len() ==> match #[trigger] self.children[i] {
                        None => !sm@.contains(i),
                        Some(c) => {
                            &&& c.wf()
                            &&& c.universe == w
                            &&& c.min <= c.max
                            &&& sm@.contains(i)
                            &&& self.min < index(i, c.min as int, w)
                            &&& index(i, c.max as int, w) <= self.max
                        },
                    }
                // A maximum other than the minimum is the largest key of its
                // cluster.
                &&& self.min < self.max ==> (self.cluster(high(self.max as int, w)) matches Some(c)
                    && c.max == low(self.max as int, w))
            },
        }
    }

    /// Every key lies between the recorded extremes, which are keys themselves.
    pub(crate) proof fn lemma_extremes(&self)
        requires
            self.wf(),
        ensures
            self.vacant() ==> self@ =~= Set::<int>::empty(),
            !self.vacant() ==> self@.contains(self.min as int) && self@.contains(self.max as int),
            forall|x: int|
                #[trigger] self@.contains(x) ==> 0 <= self.min <= x <= self.max < self.universe,
        decreases self,
    {
        let w = self.sqrt_universe as int;
        if !self.vacant() && self.universe > 2 {
            if self.min < self.max {
                self.children[high(self.max as int, w)]->0.lemma_extremes();
            }
            assert forall|x: int| #[trigger] self@.contains(x) implies self.min <= x <= self.max by {
                if x != self.min {
                    let c = self.children[high(x, w)]->0;
                    c.lemma_extremes();
                    assert(c@.contains(low(x, w)));
                    lemma_split(x, w);
                }
            }
        }
    }

    /// A key other than the minimum sits in the cluster that its high part
    /// names, at the position that its low part names.
    pub(crate) proof fn lemma_key_in_cluster(&self, z: int)
        requires
            self.wf(),
            self.universe > 2,
            self@.contains(z),
            z != self.min,
        ensures
            ({
                let w = self.sqrt_universe as int;
                let k = high(z, w);
                &&& 0 <= k < w
                &&& 0 <= low(z, w) < w
                &&& z == index(k, low(z, w), w)
                &&& self.children[k] matches Some(c)
                &&& c.wf()
                &&& c.universe == w
                &&& c@.contains(low(z, w))
                &&& self.summary->0@.contains(k)
            }),
    {
        let w = self.sqrt_universe as int;
        lemma_split(z, w);
    }

    /// A key of cluster `k` is a key of the node, above the node's minimum.
    pub(crate) proof fn lemma_cluster_key(&self, k: int, e: int)
        requires
            self.wf(),
            self.universe > 2,
            0 <= k < self.children.len(),
            self.children[k] is Some,
            self.children[k]->0@.contains(e),
        ensures
            ({
                let w = self.sqrt_universe as int;
                &&& 0 <= e < w
                &&& self@.contains(index(k, e, w))
                &&& self.min < index(k, e, w) <= self.max
                &&& high(index(k, e, w), w) == k
                &&& low(index(k, e, w), w) == e
            }),
    {
        let w = self.sqrt_universe as int;
        let c = self.children[k]->0;
        c.lemma_extremes();
        lemma_join(k, e, w);
    }

    /// The keys of a tree are finitely many and lie in `0..universe`.
    pub proof fn lemma_view_bounded(&self)
        requires
            self.wf(),
        ensures
            self@.finite(),
            self@.len() <= self.spec_universe(),
            forall|x: int| self@.contains(x) ==> 0 <= x < self.spec_universe(),
            2 <= self.spec_universe() <= i64::MAX,
    {
        self.lemma_extremes();
        let range = vstd::set_lib::set_int_range(0, self.universe as int);
        vstd::set_lib::lemma_int_range(0, self.universe as int);
        vstd::set_lib::lemma_len_subset(self@, range);
    }

    /// The exclusive upper bound of the keys that the tree can hold.
    #[verifier::when_used_as_spec(spec_universe)]
    pub fn universe(&self) -> (u: i64)
        ensures
            u == self.spec_universe(),
    {
        self.universe
    }

    /// Whether the tree holds no key.
    pub fn is_empty(&self) -> (b: bool)
        requires
            self.wf(),
        ensures
            b <==> self@ == Set::<int>::empty(),
    {
        proof {
            self.lemma_extremes();
        }
        self.min > self.max
    }

    /// The smallest key of the tree, if it holds any.
    pub fn minimum(&self) -> (m: Option<i64>)
        requires
            self.wf(),
        ensures
            match m {
                Some(v) => is_least(self@, v as int),
                None => self@ == Set::<int>::empty(),
            },
    {
        proof {
            self.lemma_extremes();
        }
        if self.is_empty() {
            None
        } else {
            Some(self.min)
        }
    }

    /// The largest key of the tree, if it holds any.
    pub fn maximum(&self) -> (m: Option<i64>)
        requires
            self.wf(),
        ensures
            match m {
                Some(v) => is_greatest(self@, v as int),
                None => self@ == Set::<int>::empty(),
            },
    {
        proof {
            self.lemma_extremes();
        }
        if self.is_empty() {
            None
        } else {
            Some(self.max)
        }
    }

    /// Index of the cluster that key `x` belongs to: `x` shifted right by the
    /// number of bits of a position.
    pub(crate) fn high(&self, x: i64) -> (k: i64)
        requires
            is_pow2(self.sqrt_universe as int),
            0 <= x,
        ensures
            k == high(x as int, self.sqrt_universe as int),
            0 <= k <= x,
    {
        let shift = (self.sqrt_universe as u64).trailing_zeros();
        proof {
            reveal(is_pow2);
            lemma_pow2_shift(self.sqrt_universe as u64);
            lemma_u64_shr_is_div(x as u64, shift as u64);
            lemma_split(x as int, self.sqrt_universe as int);
            assert(x as int / self.sqrt_universe as int <= x) by (nonlinear_arith)
                requires
                    x >= 0,
                    self.sqrt_universe > 0,
            ;
        }
        ((x as u64) >> shift) as i64
    }

    /// Position of key `x` inside its cluster: the low bits of `x`.
    pub(crate) fn low(&self, x: i64) -> (j: i64)
        requires
            is_pow2(self.sqrt_universe as int),
            0 <= x,
        ensures
            j == low(x as int, self.sqrt_universe as int),
            0 <= j < self.sqrt_universe,
    {
        proof {
            reveal(is_pow2);
            lemma_pow2_shift(self.sqrt_universe as u64);
            lemma_u64_low_bits_mask_is_mod(
                x as u64,
                u64_trailing_zeros(self.sqrt_universe as u64) as nat,
            );
            lemma_split(x as int, self.sqrt_universe as int);
        }
        ((x as u64) & ((self.sqrt_universe as u64) - 1)) as i64
    }

    /// The key at position `j` of cluster `i`: the bits of `i` followed by
    /// the bits of `j`.
    pub(crate) fn index(&self, i: i64, j: i64) -> (x: i64)
        requires
            is_pow2(self.sqrt_universe as int),
            0 <= i,
            0 <= j < self.sqrt_universe,
            index(i as int, j as int, self.sqrt_universe as int) <= i64::MAX,
        ensures
            x == index(i as int, j as int, self.sqrt_universe as int),
    {
        let shift = (self.sqrt_universe as u64).trailing_zeros();
        proof {
            reveal(is_pow2);
            lemma_pow2_shift(self.sqrt_universe as u64);
            assert(0 <= i * self.sqrt_universe) by (nonlinear_arith)
                requires
                    0 <= i,
                    0 < self.sqrt_universe,
            ;
            lemma_u64_shl_is_mul(i as u64, shift as u64);
            lemma_u64_shl_is_mul(1, shift as u64);
            let a = i as u64;
            let b = j as u64;
            let s = shift as u64;
            assert(((a << s) | b) == (a << s) + b) by (bit_vector)
                requires
                    s < 64,
                    b < (1u64 << s),
            ;
        }
        (((i as u64) << shift) | (j as u64)) as i64
    }

    /// An empty tree over the keys `0..universe`.
    ///
    /// The universe is cut into clusters whose width is the least power of two
    /// with a square of at least `universe`; the slots of all clusters are
    /// allocated at once and left unoccupied, and a universe above two gets an
    /// empty summary over the cluster indices.
    pub fn new(universe: i64) -> (r: Result<VEBTree, VebError>)
        ensures
            universe < 2 ==> r == Err::<VEBTree, VebError>(VebError::InvalidUniverse),
            2 <= universe && universe > isize::MAX ==> r == Err::<VEBTree, VebError>(
                VebError::UniverseTooLarge,
            ),
            2 <= universe <= isize::MAX ==> (r matches Ok(t) && t.wf() && t.spec_universe()
                == universe && t@ == Set::<int>::empty()),
        decreases universe,
    {
        if universe <= 1 {
            return Err(VebError::InvalidUniverse);
        }
        if universe > isize::MAX as i64 {
            return Err(VebError::UniverseTooLarge);
        }
        let sqrt_universe = upper_root(universe);
        proof {
            lemma_upper_root_fits(sqrt_universe as int, universe as int);
            if universe > 2 {
                lemma_upper_root_below(sqrt_universe as int, universe as int);
            }
        }
        let summary = if universe == 2 {
            None
        } else {
            Some(Box::new(VEBTree::new(sqrt_universe).unwrap()))
        };
        let mut children: Vec<Option<VEBTree>> = Vec::with_capacity(sqrt_universe as usize);
        let mut i: i64 = 0;
        while i < sqrt_universe
            invariant
                0 <= i <= sqrt_universe,
                children.len() == i,
                forall|j: int| 0 <= j < children.len() ==> (#[trigger] children[j]) is None,
            decreases sqrt_universe - i,
        {
            children.push(None);
            i += 1;
        }
        let tree = VEBTree { children, summary, min: universe, max: -1, universe, sqrt_universe };
        proof {
            tree.lemma_extremes();
        }
        Ok(tree)
    }
}

} // verus!
