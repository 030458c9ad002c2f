//! Insertion.

use crate::split::{
    high, index, lemma_high_bound, lemma_index_order, lemma_key_order, lemma_split,
    lemma_upper_root_below, lemma_upper_root_fits, low,
};
use crate::tree::VEBTree;
use vstd::prelude::*;

verus! {

/// One level of an insertion into a node that has clusters and holds a key
/// already: `post` is `pre` with the smaller of `x` and the old minimum as its
/// minimum, the larger of the two added to its cluster, and the index of
/// that cluster added to the summary.
proof fn lemma_insert_step(pre: VEBTree, post: VEBTree, x: int)
    requires
        pre.wf(),
        pre.universe > 2,
        !pre.vacant(),
        0 <= x < pre.universe,
        x != pre.min,
        post.universe == pre.universe,
        post.sqrt_universe == pre.sqrt_universe,
        post.min == (if x < pre.min { x } else { pre.min as int }),
        post.children.len() == pre.children.len(),
        ({
            let w = pre.sqrt_universe as int;
            let k = if x < pre.min { pre.min as int } else { x };
            let i = high(k, w);
            &&& post.max == (if k > pre.max { k } else { pre.max as int })
            &&& forall|j: int|
                0 <= j < pre.children.len() && j != i ==> #[trigger] post.children[j]
                    == pre.children[j]
            &&& post.cluster(i) matches Some(c)
            &&& c.wf()
            &&& c.universe == w
            &&& c@ == pre.cluster_keys(i).insert(low(k, w))
            &&& post.summary matches Some(sm)
            &&& sm.wf()
            &&& sm.universe == w
            &&& sm@ == pre.summary->0@.insert(i)
        }),
    ensures
        post.wf(),
        post@ == pre@.insert(x),
{
    let w = pre.sqrt_universe as int;
    let k = if x < pre.min { pre.min as int } else { x };
    let i = high(k, w);
    let l = low(k, w);
    let c2 = post.children[i]->0;
    let sm2 = post.summary->0;
    lemma_split(k, w);
    lemma_high_bound(k, w);
    pre.lemma_extremes();
    c2.lemma_extremes();
    assert(c2@.contains(l));

    // Every key of the grown cluster lies above the new minimum and not above
    // the new maximum.
    assert forall|e: int| c2@.contains(e) implies post.min < index(i, e, w) <= post.max by {
        if e != l {
            pre.lemma_cluster_key(i, e);
        }
    }

    assert forall|j: int| 0 <= j < post.children.len() implies match #[trigger] post.children[j] {
        None => !sm2@.contains(j),
        Some(c) => {
            &&& c.wf()
            &&& c.universe == w
            &&& c.min <= c.max
            &&& sm2@.contains(j)
            &&& post.min < index(j, c.min as int, w)
            &&& index(j, c.max as int, w) <= post.max
        },
    } by {}

    if post.min < post.max {
        let m = post.max as int;
        let hm = high(m, w);
        lemma_split(m, w);
        lemma_high_bound(m, w);
        if hm == i {
            // The position of the maximum is a key of the grown cluster, and
            // no key of that cluster lies above it.
            if m != k {
                let c = pre.children[i]->0;
                c.lemma_extremes();
            }
            assert(c2@.contains(low(m, w)));
            lemma_index_order(i, c2.max as int, i, low(m, w), w);
        }
    }

    assert forall|y: int| post@.contains(y) <==> (pre@.contains(y) || y == x) by {
        lemma_split(y, w);
        lemma_key_order(y, k, w);
        if high(y, w) == i {
            assert(c2@.contains(low(y, w)) <==> (pre.cluster_keys(i).contains(low(y, w)) || low(
                y,
                w,
            ) == l));
        }
    }
}

impl VEBTree {
    /// Makes `x` the only key of an empty node.
    pub(crate) fn empty_insert(&mut self, x: i64)
        requires
            old(self).wf(),
            old(self).vacant(),
            0 <= x < old(self).universe,
        ensures
            final(self).wf(),
            final(self).universe == old(self).universe,
            final(self).min == x,
            final(self).max == x,
            final(self)@ == set![x as int],
    {
        self.min = x;
        self.max = x;
        proof {
            let w = self.sqrt_universe as int;
            if self.universe > 2 {
                assert forall|i: int| 0 <= i < self.children.len() implies (
                #[trigger] self.children[i]) is None by {
                    if old(self).children[i] is Some {
                        let c = old(self).children[i]->0;
                        assert(0 <= index(i, c.min as int, w)) by (nonlinear_arith)
                            requires
                                0 <= i,
                                0 < w,
                                0 <= c.min,
                        ;
                        c.lemma_extremes();
                    }
                }
            }
        }
    }

    /// Adds `x` to the keys of the tree. A key that the tree holds already
    /// leaves it as it was.
    pub fn insert(&mut self, x: i64)
        requires
            old(self).wf(),
            0 <= x < old(self).spec_universe(),
        ensures
            final(self).wf(),
            final(self).spec_universe() == old(self).spec_universe(),
            final(self)@ == old(self)@.insert(x as int),
            old(self)@.contains(x as int) ==> final(self).layout() == old(self).layout(),
        decreases *old(self),
    {
        proof {
            self.lemma_extremes();
        }
        if self.is_empty() {
            self.empty_insert(x);
            return ;
        }
        if x == self.min {
            return ;
        }
        // The smaller of `x` and the old minimum is the new minimum; the larger
        // one, `key`, goes into a cluster. The node's own fields change last,
        // after everything that allocates.
        let (least, key) = if x < self.min {
            (x, self.min)
        } else {
            (self.min, x)
        };
        if self.universe > 2 {
            let ghost w = self.sqrt_universe as int;
            proof {
                lemma_split(key as int, w);
                lemma_high_bound(key as int, w);
            }
            let i = self.high(key);
            let l = self.low(key);
            let width = self.sqrt_universe;
            match &mut self.children[i as usize] {
                Some(c) => {
                    c.insert(l);
                },
                None => {
                    proof {
                        lemma_upper_root_fits(w, self.universe as int);
                        lemma_upper_root_below(w, self.universe as int);
                    }
                    let mut fresh = VEBTree::new(width).unwrap();
                    proof {
                        fresh.lemma_extremes();
                    }
                    fresh.empty_insert(l);
                    self.children[i as usize] = Some(fresh);
                    if let Some(sm) = &mut self.summary {
                        sm.insert(i);
                    }
                },
            }
            proof {
                assert(self.summary->0@ =~= old(self).summary->0@.insert(i as int));
            }
        }
        self.min = least;
        if key > self.max {
            self.max = key;
        }
        proof {
            if self.universe > 2 {
                lemma_insert_step(*old(self), *self, x as int);
            }
            if old(self)@.contains(x as int) {
                assert(self@ =~= old(self)@);
                old(self).lemma_canonical(self);
            }
        }
    }
}

} // verus!
