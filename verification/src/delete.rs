//! Deletion.

use crate::split::{
    high, index, lemma_high_bound, lemma_index_order, lemma_join, lemma_key_order, lemma_split, low,
};
use crate::tree::VEBTree;
use vstd::prelude::*;

verus! {

/// The key that leaves a cluster when `x` is deleted from a node with at least
/// two keys: `x` itself, or, where `x` is the minimum, the smallest key of the
/// clusters, which takes its place.
spec fn leaving_key(pre: VEBTree, x: int) -> int {
    if x == pre.min {
        pre.first_cluster_key()
    } else {
        x
    }
}

/// What one level of a deletion leaves behind, but for the maximum: the
/// minimum is replaced where it was deleted, the leaving key is gone from its
/// cluster, a cluster left without keys is gone, and so is its index from the
/// summary.
spec fn delete_step(pre: VEBTree, post: VEBTree, x: int) -> bool {
    let w = pre.sqrt_universe as int;
    let key = leaving_key(pre, x);
    let i = high(key, w);
    &&& post.universe == pre.universe
    &&& post.sqrt_universe == pre.sqrt_universe
    &&& post.min == (if x == pre.min { key } else { pre.min as int })
    &&& post.children.len() == pre.children.len()
    &&& forall|j: int|
        0 <= j < pre.children.len() && j != i ==> #[trigger] post.children[j] == pre.children[j]
    &&& post.cluster_keys(i) == pre.cluster_keys(i).remove(low(key, w))
    &&& post.cluster(i) matches Some(c) ==> c.wf() && c.universe == w && !c.vacant()
    &&& post.summary matches Some(sm)
    &&& sm.wf()
    &&& sm.universe == w
    &&& sm@ == (if post.cluster(i) is None { pre.summary->0@.remove(i) } else { pre.summary->0@ })
}

/// The smallest key of the clusters is a key, and no key but the minimum
/// lies below it.
proof fn lemma_first_cluster_key(pre: VEBTree)
    requires
        pre.wf(),
        pre.universe > 2,
        pre.min < pre.max,
    ensures
        ({
            let w = pre.sqrt_universe as int;
            let j = pre.summary->0.min as int;
            let key = pre.first_cluster_key();
            &&& !pre.summary->0.vacant()
            &&& 0 <= j < w
            &&& pre.children[j] matches Some(c)
            &&& 0 <= c.min < w
            &&& high(key, w) == j
            &&& low(key, w) == c.min
            &&& pre@.contains(key)
            &&& pre.min < key <= pre.max
            &&& forall|y: int| pre@.contains(y) && y != pre.min ==> key <= y
        }),
{
    let w = pre.sqrt_universe as int;
    let sm = pre.summary->0;
    pre.lemma_extremes();
    pre.lemma_key_in_cluster(pre.max as int);
    sm.lemma_extremes();
    let j = sm.min as int;
    let c = pre.children[j]->0;
    c.lemma_extremes();
    pre.lemma_cluster_key(j, c.min as int);
    let key = pre.first_cluster_key();
    assert forall|y: int| pre@.contains(y) && y != pre.min implies key <= y by {
        pre.lemma_key_in_cluster(y);
        lemma_index_order(j, c.min as int, high(y, w), low(y, w), w);
    }
}

/// The largest key of the clusters is the maximum of a node with two keys or
/// more.
proof fn lemma_last_cluster_key(pre: VEBTree)
    requires
        pre.wf(),
        pre.universe > 2,
        pre.min < pre.max,
    ensures
        pre.last_cluster_key() == pre.max,
        pre.summary->0.max == high(pre.max as int, pre.sqrt_universe as int),
{
    let w = pre.sqrt_universe as int;
    let sm = pre.summary->0;
    pre.lemma_extremes();
    pre.lemma_key_in_cluster(pre.max as int);
    sm.lemma_extremes();
    let j = sm.max as int;
    let c = pre.children[j]->0;
    c.lemma_extremes();
    pre.lemma_cluster_key(j, c.max as int);
    lemma_key_order(index(j, c.max as int, w), pre.max as int, w);
}

/// One level of a deletion from a node with clusters and two keys or more
/// keeps the invariant and removes exactly `x`, once the maximum is set to
/// the largest key that is left.
proof fn lemma_delete_step(pre: VEBTree, post: VEBTree, x: int)
    requires
        pre.wf(),
        pre.universe > 2,
        pre.min < pre.max,
        pre.min <= x <= pre.max,
        pre.cluster(high(leaving_key(pre, x), pre.sqrt_universe as int)) is Some,
        delete_step(pre, post, x),
        post.max == (if leaving_key(pre, x) != pre.max {
            pre.max as int
        } else if post.summary->0.vacant() {
            post.min as int
        } else {
            post.last_cluster_key()
        }),
    ensures
        post.wf(),
        post@ == pre@.remove(x),
{
    let w = pre.sqrt_universe as int;
    let key = leaving_key(pre, x);
    let i = high(key, w);
    let l = low(key, w);
    let c = pre.children[i]->0;
    let sm = pre.summary->0;
    let sm2 = post.summary->0;
    pre.lemma_extremes();
    lemma_first_cluster_key(pre);
    lemma_last_cluster_key(pre);
    lemma_split(key, w);
    sm.lemma_extremes();
    sm2.lemma_extremes();
    c.lemma_extremes();

    // The keys that are left in the clusters lie above the new minimum.
    assert forall|j: int, e: int| 0 <= j < w && #[trigger] post.cluster_keys(j).contains(e) implies
        pre.cluster_keys(j).contains(e) && (j == i ==> e != l) && post.min < index(j, e, w)
        <= pre.max && 0 <= e < w by {
        pre.lemma_cluster_key(j, e);
        if x == pre.min {
            lemma_key_order(key, index(j, e, w), w);
        }
    }

    // The new maximum is the largest key that is left in the clusters.
    if !sm2.vacant() {
        let k = sm2.max as int;
        let ck = post.children[k]->0;
        ck.lemma_extremes();
        lemma_join(k, ck.max as int, w);
        if key != pre.max {
            // The maximum stays in its cluster.
            let hm = high(pre.max as int, w);
            let lm = low(pre.max as int, w);
            lemma_split(pre.max as int, w);
            lemma_key_order(key, pre.max as int, w);
            if hm == i {
                assert(pre.cluster_keys(i).contains(lm));
                assert(post.cluster_keys(i).contains(lm));
            }
            let cm = post.children[hm]->0;
            cm.lemma_extremes();
            lemma_index_order(hm, cm.max as int, hm, lm, w);
        }
    } else {
        if key != pre.max {
            let hm = high(pre.max as int, w);
            let lm = low(pre.max as int, w);
            lemma_split(pre.max as int, w);
            lemma_key_order(key, pre.max as int, w);
            if hm == i {
                assert(post.cluster_keys(i).contains(lm));
            }
        }
    }

    assert forall|j: int| 0 <= j < post.children.len() implies match #[trigger] post.children[j] {
        None => !sm2@.contains(j),
        Some(c) => {
            &&& c.wf()
            &&& c.universe == w
            &&& c.min <= c.max
            &&& sm2@.contains(j)
            &&& post.min < index(j, c.min as int, w)
            &&& index(j, c.max as int, w) <= post.max
        },
    } by {
        if post.children[j] is Some {
            let cj = post.children[j]->0;
            cj.lemma_extremes();
            assert(post.cluster_keys(j).contains(cj.max as int));
            if key == pre.max {
                let k = sm2.max as int;
                let ck = post.children[k]->0;
                lemma_index_order(j, cj.max as int, k, ck.max as int, w);
            }
        }
    }

    assert forall|y: int| post@.contains(y) <==> (pre@.contains(y) && y != x) by {
        lemma_split(y, w);
        lemma_key_order(y, key, w);
        let hy = high(y, w);
        if 0 <= hy < w {
            assert(post.cluster_keys(hy).contains(low(y, w)) <==> (pre.cluster_keys(hy).contains(
                low(y, w),
            ) && !(hy == i && low(y, w) == l)));
            if pre.cluster_keys(hy).contains(low(y, w)) {
                pre.lemma_cluster_key(hy, low(y, w));
            }
        }
    }
}

impl VEBTree {
    /// Removes `x` from the keys of the tree and tells whether it was one.
    /// A value that is not a key, in the universe or outside it, leaves the
    /// tree as it was.
    pub fn delete(&mut self, x: i64) -> (present: bool)
        requires
            old(self).wf(),
        ensures
            final(self).wf(),
            final(self).spec_universe() == old(self).spec_universe(),
            final(self)@ == old(self)@.remove(x as int),
            present == old(self)@.contains(x as int),
            !present ==> final(self).layout() == old(self).layout(),
        decreases *old(self),
    {
        proof {
            self.lemma_extremes();
        }
        if self.is_empty() || x < self.min || x > self.max {
            return false;
        }
        if self.min == self.max {
            // The only key goes: the node is empty again.
            self.min = self.universe;
            self.max = -1;
            proof {
                if self.universe > 2 {
                    assert forall|i: int| 0 <= i < self.children.len() implies (
                    #[trigger] self.children[i]) is None by {
                        if old(self).children[i] is Some {
                            let c = old(self).children[i]->0;
                            c.lemma_extremes();
                            old(self).lemma_cluster_key(i, c.min as int);
                            old(self).lemma_cluster_key(i, c.max as int);
                        }
                    }
                }
            }
            return true;
        }
        if self.universe == 2 {
            // The keys are 0 and 1; the one that stays is both extremes.
            if x == 0 {
                self.min = 1;
            } else {
                self.max = 0;
            }
            return true;
        }
        let ghost w = self.sqrt_universe as int;
        proof {
            lemma_first_cluster_key(*old(self));
            lemma_last_cluster_key(*old(self));
        }
        // `key` is the key that leaves its cluster: `x`, or, where `x` is the
        // minimum, the smallest key of the clusters, which becomes the minimum.
        let mut key = x;
        if key == self.min {
            let j = self.summary.as_ref().unwrap().min;
            let first = self.children[j as usize].as_ref().unwrap();
            key = self.index(j, first.min);
            self.min = key;
        }
        proof {
            lemma_split(key as int, w);
            lemma_high_bound(key as int, w);
        }
        let i = self.high(key);
        let l = self.low(key);
        let (present, emptied) = match &mut self.children[i as usize] {
            Some(c) => {
                let found = c.delete(l);
                (found, c.is_empty())
            },
            None => {
                proof {
                    assert(self@ =~= old(self)@);
                    old(self).lemma_canonical(self);
                }
                return false;
            },
        };
        proof {
            old(self).children[i as int]->0.lemma_extremes();
            old(self).summary->0.lemma_extremes();
        }
        if emptied {
            // A cluster without keys is not kept, nor its index in the summary.
            self.children[i as usize] = None;
            if let Some(sm) = &mut self.summary {
                sm.delete(i);
            }
            if key == self.max {
                // The maximum is gone with its cluster: the new one is the
                // largest key of the last cluster that is left, or the minimum.
                let sm = self.summary.as_ref().unwrap();
                proof {
                    sm.lemma_extremes();
                }
                if sm.is_empty() {
                    self.max = self.min;
                } else {
                    let k = sm.max;
                    proof {
                        assert(old(self).summary->0@.contains(k as int));
                        let ck = self.children[k as int]->0;
                        ck.lemma_extremes();
                        old(self).lemma_cluster_key(k as int, ck.max as int);
                    }
                    let last = self.children[k as usize].as_ref().unwrap();
                    let m = self.index(k, last.max);
                    self.max = m;
                }
            }
        } else if key == self.max {
            // The maximum is gone, its cluster is not: the new one is the
            // largest key that the cluster has left.
            proof {
                let c2 = self.children[i as int]->0;
                let sm2 = self.summary->0;
                c2.lemma_extremes();
                sm2.lemma_extremes();
                assert(sm2@.contains(old(self).summary->0.max as int));
                assert(old(self).summary->0@.contains(sm2.max as int));
                old(self).lemma_cluster_key(i as int, c2.max as int);
            }
            let rest = self.children[i as usize].as_ref().unwrap();
            let m = self.index(i, rest.max);
            self.max = m;
        } else {
            proof {
                self.children[i as int]->0.lemma_extremes();
            }
        }
        proof {
            lemma_delete_step(*old(self), *self, x as int);
            if !present {
                assert(self@ =~= old(self)@);
                old(self).lemma_canonical(self);
            }
        }
        present
    }
}

} // verus!
