//! The content of a tree, node by node, and the proof that a tree's keys and
//! universe determine it.

use crate::split::{high, index, lemma_join, lemma_upper_root_unique, low};
use crate::tree::VEBTree;
use vstd::prelude::*;

verus! {

/// What a node holds, field by field, with the nodes below it.
pub struct Layout {
    pub universe: int,
    pub cluster_width: int,
    pub min: int,
    pub max: int,
    pub clusters: Seq<Option<Layout>>,
    pub summary: Option<Box<Layout>>,
}

impl VEBTree {
    /// The content of the tree: two trees with equal layouts agree in every
    /// field of every node.
    pub closed spec fn layout(&self) -> Layout
        decreases self,
    {
        Layout {
            universe: self.universe as int,
            cluster_width: self.sqrt_universe as int,
            min: self.min as int,
            max: self.max as int,
            clusters: Seq::new(
                self.children.len() as nat,
                |i: int|
                    if 0 <= i < self.children.len() {
                        match self.children[i] {
                            Some(c) => Some(c.layout()),
                            None => None,
                        }
                    } else {
                        None
                    },
            ),
            summary: match self.summary {
                Some(sm) => Some(Box::new(sm.layout())),
                None => None,
            },
        }
    }

    /// Trees with equal layouts have the same universe and keys, and one is
    /// well formed if the other is.
    pub proof fn lemma_layout_determines(&self, other: &VEBTree)
        requires
            self.layout() == other.layout(),
        ensures
            self.spec_universe() == other.spec_universe(),
            self.wf() == other.wf(),
            self@ == other@,
        decreases self,
    {
        let la = self.layout();
        let lb = other.layout();
        assert(lb.clusters.len() == other.children@.len());
        assert forall|i: int| 0 <= i < self.children@.len() implies match (
            #[trigger] self.children@[i],
            other.children@[i],
        ) {
            (Some(ca), Some(cb)) => ca.wf() == cb.wf() && ca@ == cb@ && ca.universe == cb.universe
                && ca.min == cb.min && ca.max == cb.max,
            (None, None) => true,
            _ => false,
        } by {
            assert(la.clusters[i] == lb.clusters[i]);
            if self.children@[i] is Some {
                let ca = self.children@[i]->0;
                let cb = other.children@[i]->0;
                ca.lemma_layout_determines(&cb);
            }
        }
        if self.summary is Some {
            let sa = self.summary->0;
            let sb = other.summary->0;
            sa.lemma_layout_determines(&*sb);
        }
        assert forall|x: int| self@.contains(x) == other@.contains(x) by {
            let w = self.sqrt_universe as int;
            let k = high(x, w);
            if 0 <= k < self.children@.len() {
                match (self.children@[k], other.children@[k]) {
                    (Some(ca), Some(cb)) => {
                        assert(ca@.contains(low(x, w)) == cb@.contains(low(x, w)));
                    },
                    _ => {},
                }
            }
        }
        // The invariant speaks of each slot of a node; name the slots of both.
        if self.wf() {
            assert forall|i: int| 0 <= i < other.children@.len() implies (
            #[trigger] other.children@[i]) is Some == self.children@[i] is Some by {}
        }
        if other.wf() {
            assert forall|i: int| 0 <= i < self.children@.len() implies (
            #[trigger] self.children@[i]) is Some == other.children@[i] is Some by {}
        }
    }

    /// The keys of cluster `i` are the positions of the node's keys, other
    /// than the minimum, that fall into that cluster.
    proof fn lemma_cluster_keys(&self, i: int)
        requires
            self.wf(),
            self.universe > 2,
            0 <= i < self.children.len(),
        ensures
            forall|e: int|
                #[trigger] self.cluster_keys(i).contains(e) <==> (0 <= e < self.sqrt_universe
                    && self@.contains(index(i, e, self.sqrt_universe as int)) && index(
                    i,
                    e,
                    self.sqrt_universe as int,
                ) != self.min),
            self.children[i] is Some <==> self.cluster_keys(i) != Set::<int>::empty(),
            self.summary->0@.contains(i) <==> self.children[i] is Some,
    {
        let w = self.sqrt_universe as int;
        assert forall|e: int| #[trigger]
            self.cluster_keys(i).contains(e) <==> (0 <= e < w && self@.contains(index(i, e, w))
                && index(i, e, w) != self.min) by {
            if self.cluster_keys(i).contains(e) {
                self.lemma_cluster_key(i, e);
            }
            if 0 <= e < w {
                lemma_join(i, e, w);
                let z = index(i, e, w);
                if self@.contains(z) && z != self.min {
                    self.lemma_key_in_cluster(z);
                }
            }
        }
        if self.children[i] is Some {
            let c = self.children[i]->0;
            c.lemma_extremes();
        }
    }

    /// A tree is determined by its universe and its keys: two trees that agree
    /// in both agree in every field of every node.
    pub proof fn lemma_canonical(&self, other: &VEBTree)
        requires
            self.wf(),
            other.wf(),
            self.spec_universe() == other.spec_universe(),
            self@ == other@,
        ensures
            self.layout() == other.layout(),
        decreases self,
    {
        let w = self.sqrt_universe as int;
        lemma_upper_root_unique(w, other.sqrt_universe as int, self.universe as int);
        self.lemma_extremes();
        other.lemma_extremes();
        if self.universe > 2 {
            let sa = self.summary->0;
            let sb = other.summary->0;
            sa.lemma_extremes();
            sb.lemma_extremes();
            assert forall|i: int| sa@.contains(i) <==> sb@.contains(i) by {
                if 0 <= i < w {
                    self.lemma_cluster_keys(i);
                    other.lemma_cluster_keys(i);
                    assert(self.cluster_keys(i) =~= other.cluster_keys(i));
                }
            }
            assert(sa@ =~= sb@);
            sa.lemma_canonical(&*sb);
            assert forall|i: int| 0 <= i < w implies self.layout().clusters[i]
                == other.layout().clusters[i] by {
                self.lemma_cluster_keys(i);
                other.lemma_cluster_keys(i);
                assert(self.cluster_keys(i) =~= other.cluster_keys(i));
                if self.children[i] is Some {
                    let ca = self.children[i]->0;
                    let cb = other.children[i]->0;
                    ca.lemma_canonical(&cb);
                }
            }
        }
        assert(self.layout().clusters =~= other.layout().clusters);
    }
}

impl Clone for VEBTree {
    /// A copy of the tree: equal to it in every field of every node.
    fn clone(&self) -> (res: Self)
        ensures
            res.layout() == self.layout(),
            res.spec_universe() == self.spec_universe(),
            res.wf() == self.wf(),
            res@ == self@,
        decreases self,
    {
        let mut children: Vec<Option<VEBTree>> = Vec::with_capacity(self.children.len());
        let mut i: usize = 0;
        while i < self.children.len()
            invariant
                i <= self.children.len(),
                children.len() == i,
                forall|j: int|
                    0 <= j < i ==> match (#[trigger] children@[j], self.children@[j]) {
                        (Some(a), Some(b)) => a.layout() == b.layout(),
                        (None, None) => true,
                        _ => false,
                    },
            decreases self.children.len() - i,
        {
            let slot = match &self.children[i] {
                Some(c) => Some(c.clone()),
                None => None,
            };
            children.push(slot);
            i += 1;
        }
        let summary = match &self.summary {
            Some(sm) => Some(Box::new((&**sm).clone())),
            None => None,
        };
        let res = VEBTree {
            children,
            summary,
            min: self.min,
            max: self.max,
            universe: self.universe,
            sqrt_universe: self.sqrt_universe,
        };
        proof {
            assert(res.layout().clusters =~= self.layout().clusters);
            res.lemma_layout_determines(self);
        }
        res
    }
}

} // verus!
