//! Walking the keys of a tree in ascending order.

use crate::order::is_least;
use crate::tree::VEBTree;
use vstd::prelude::*;

verus! {

/// The values of `v`, in order, grow strictly.
pub open spec fn is_ascending(v: Seq<i64>) -> bool {
    forall|i: int, j: int| 0 <= i < j < v.len() ==> v[i] < v[j]
}

/// The values that occur in `v`.
pub open spec fn values_of(v: Seq<i64>) -> Set<int> {
    Set::new(|k: int| exists|i: int| 0 <= i < v.len() && v[i] == k)
}

/// A walk over the keys of a tree, from the smallest upwards. The walk
/// borrows the tree, so the tree cannot change under it.
#[derive(Debug)]
pub struct Iter<'a> {
    tree: &'a VEBTree,
    // The key that the next step yields.
    cursor: Option<i64>,
}

impl<'a> Iter<'a> {
    /// The tree that is walked.
    pub closed spec fn tree(&self) -> &VEBTree {
        self.tree
    }

    /// The walk is over a well-formed tree and stands at one of its keys, or
    /// at the end.
    pub closed spec fn wf(&self) -> bool {
        &&& self.tree.wf()
        &&& self.cursor matches Some(c) ==> self.tree@.contains(c as int)
    }

    /// The keys that the walk has yet to yield.
    pub closed spec fn remaining(&self) -> Set<int> {
        match self.cursor {
            Some(c) => Set::new(|k: int| self.tree@.contains(k) && c <= k),
            None => Set::empty(),
        }
    }

    /// What is left of a walk is a part of the tree's keys.
    pub proof fn lemma_remaining(&self)
        requires
            self.wf(),
        ensures
            self.remaining().subset_of(self.tree()@),
            self.remaining().finite(),
    {
        self.tree.lemma_view_bounded();
        vstd::set_lib::lemma_len_subset(self.remaining(), self.tree@);
    }

    /// Yields the smallest key that is left and moves past it; yields nothing
    /// once no key is left.
    pub fn next(&mut self) -> (r: Option<i64>)
        requires
            old(self).wf(),
        ensures
            final(self).wf(),
            final(self).tree() == old(self).tree(),
            match r {
                Some(k) => is_least(old(self).remaining(), k as int) && final(self).remaining()
                    == old(self).remaining().remove(k as int),
                None => old(self).remaining() == Set::<int>::empty() && final(self).remaining()
                    == Set::<int>::empty(),
            },
    {
        match self.cursor {
            None => None,
            Some(c) => {
                self.cursor = self.tree.find_next_strict(c);
                proof {
                    assert(self.remaining() =~= old(self).remaining().remove(c as int));
                }
                Some(c)
            },
        }
    }
}

impl VEBTree {
    /// A walk over the keys of the tree in ascending order.
    pub fn iter(&self) -> (it: Iter<'_>)
        requires
            self.wf(),
        ensures
            it.wf(),
            it.tree() == self,
            it.remaining() == self@,
    {
        let it = Iter { tree: self, cursor: self.minimum() };
        proof {
            assert(it.remaining() =~= self@);
        }
        it
    }

    /// The keys of the tree in ascending order, each once.
    pub fn to_vec(&self) -> (v: Vec<i64>)
        requires
            self.wf(),
        ensures
            is_ascending(v@),
            values_of(v@) == self@,
    {
        let mut out: Vec<i64> = Vec::new();
        let mut it = self.iter();
        proof {
            it.lemma_remaining();
        }
        loop
            invariant
                self.wf(),
                it.wf(),
                it.tree() == self,
                it.remaining().finite(),
                is_ascending(out@),
                forall|k: int| self@.contains(k) <==> (values_of(out@).contains(k)
                    || it.remaining().contains(k)),
                forall|i: int, k: int|
                    0 <= i < out.len() && it.remaining().contains(k) ==> out[i] < k,
            ensures
                is_ascending(out@),
                values_of(out@) == self@,
            decreases it.remaining().len(),
        {
            let ghost before = out@;
            match it.next() {
                None => {
                    proof {
                        assert(values_of(out@) =~= self@);
                    }
                    break ;
                },
                Some(k) => {
                    out.push(k);
                    proof {
                        let n = before.len() as int;
                        assert(out@[n] == k);
                        assert forall|y: int| values_of(out@).contains(y) <==> (values_of(
                            before,
                        ).contains(y) || y == k) by {
                            if values_of(before).contains(y) {
                                let i = choose|i: int| 0 <= i < before.len() && before[i] == y;
                                assert(out@[i] == y);
                            }
                            if values_of(out@).contains(y) {
                                let i = choose|i: int| 0 <= i < out@.len() && out@[i] == y;
                                if i < n {
                                    assert(before[i] == y);
                                }
                            }
                        }
                        it.lemma_remaining();
                    }
                },
            }
        }
        out
    }
}

} // verus!
