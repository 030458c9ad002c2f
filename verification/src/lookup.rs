//! Membership and successor queries.

use crate::order::{all_below, is_successor};
use crate::split::{
    high, index, lemma_high_bound, lemma_index_order, lemma_key_order, lemma_split, low,
};
use crate::tree::VEBTree;
use vstd::prelude::*;

verus! {

impl VEBTree {
    /// Whether `x` is a key of the tree. Values outside `0..universe` are not.
    pub fn has(&self, x: i64) -> (b: bool)
        requires
            self.wf(),
        ensures
            b == self@.contains(x as int),
        decreases self,
    {
        proof {
            self.lemma_extremes();
        }
        if self.is_empty() || x < 0 || x >= self.universe {
            false
        } else if x == self.min || x == self.max {
            true
        } else if self.universe == 2 {
            false
        } else {
            proof {
                lemma_high_bound(x as int, self.sqrt_universe as int);
            }
            match &self.children[self.high(x) as usize] {
                None => false,
                Some(c) => c.has(self.low(x)),
            }
        }
    }

    /// The successor of `x` where the cluster of `x` holds none: the minimum
    /// of the next cluster that is present, found through the summary.
    fn find_in_subtree(&self, x: i64) -> (r: Option<i64>)
        requires
            self.wf(),
            self.universe > 2,
            self.min < x <= self.max,
            forall|e: int|
                self.cluster_keys(high(x as int, self.sqrt_universe as int)).contains(e) ==> e
                    < low(x as int, self.sqrt_universe as int),
        ensures
            match r {
                Some(y) => is_successor(self@, x as int, y as int),
                None => all_below(self@, x as int),
            },
        decreases self, 0int,
    {
        let ghost w = self.sqrt_universe as int;
        proof {
            lemma_high_bound(x as int, w);
            lemma_split(x as int, w);
        }
        let i = self.high(x);
        let sm = self.summary.as_ref().unwrap();
        match sm.find_next(i + 1) {
            None => {
                proof {
                    assert forall|z: int| self@.contains(z) implies z < x by {
                        if z >= x {
                            self.lemma_key_in_cluster(z);
                            lemma_key_order(x as int, z, w);
                            assert(high(z, w) == i ==> self.cluster_keys(i as int).contains(
                                low(z, w),
                            ));
                        }
                    }
                }
                None
            },
            Some(j) => {
                proof {
                    sm.lemma_extremes();
                }
                let c = self.children[j as usize].as_ref().unwrap();
                proof {
                    c.lemma_extremes();
                    self.lemma_cluster_key(j as int, c.min as int);
                    lemma_index_order(i as int, low(x as int, w), j as int, c.min as int, w);
                    assert forall|z: int| self@.contains(z) && x <= z implies index(
                        j as int,
                        c.min as int,
                        w,
                    ) <= z by {
                        self.lemma_key_in_cluster(z);
                        lemma_key_order(x as int, z, w);
                        let k = high(z, w);
                        if k == i {
                            assert(self.cluster_keys(i as int).contains(low(z, w)));
                        } else {
                            lemma_index_order(j as int, c.min as int, k, low(z, w), w);
                        }
                    }
                }
                Some(self.index(j, c.min))
            },
        }
    }

    /// The smallest key that is not below `x`, if there is one.
    ///
    /// `x` may be any value: below every key the answer is the minimum, above
    /// every key there is none.
    pub fn find_next(&self, x: i64) -> (r: Option<i64>)
        requires
            self.wf(),
        ensures
            match r {
                Some(y) => is_successor(self@, x as int, y as int),
                None => all_below(self@, x as int),
            },
        decreases self, 1int,
    {
        proof {
            self.lemma_extremes();
        }
        if self.is_empty() {
            return None;
        }
        if x <= self.min {
            return Some(self.min);
        }
        if x > self.max {
            return None;
        }
        if self.universe == 2 {
            return Some(self.max);
        }
        let ghost w = self.sqrt_universe as int;
        proof {
            lemma_high_bound(x as int, w);
            lemma_split(x as int, w);
        }
        let i = self.high(x);
        let l = self.low(x);
        match &self.children[i as usize] {
            Some(c) if l <= c.max => {
                // The successor lies in the cluster of `x`.
                proof {
                    c.lemma_extremes();
                }
                let e = c.find_next(l).unwrap();
                proof {
                    self.lemma_cluster_key(i as int, e as int);
                    self.lemma_cluster_key(i as int, c.max as int);
                    assert forall|z: int| self@.contains(z) && x <= z implies index(
                        i as int,
                        e as int,
                        w,
                    ) <= z by {
                        self.lemma_key_in_cluster(z);
                        lemma_key_order(x as int, z, w);
                        lemma_index_order(i as int, e as int, high(z, w), low(z, w), w);
                    }
                }
                Some(self.index(i, e))
            },
            Some(c) => {
                proof {
                    c.lemma_extremes();
                }
                self.find_in_subtree(x)
            },
            None => self.find_in_subtree(x),
        }
    }

    /// The smallest key above `x`, if there is one.
    pub fn find_next_strict(&self, x: i64) -> (r: Option<i64>)
        requires
            self.wf(),
        ensures
            match r {
                Some(y) => is_successor(self@, x + 1, y as int),
                None => all_below(self@, x + 1),
            },
    {
        if x == i64::MAX {
            proof {
                self.lemma_extremes();
            }
            None
        } else {
            self.find_next(x + 1)
        }
    }
}

} // verus!
