//! What holds of every tree across several operations.
//!
//! Each law speaks of trees related as the contracts of `insert` and `delete`
//! relate the tree before a call to the tree after it.

use crate::tree::VEBTree;
use vstd::prelude::*;

verus! {

/// `post` is what `insert(x)` makes of `pre`.
pub open spec fn is_insert_of(pre: VEBTree, post: VEBTree, x: int) -> bool {
    &&& post.wf()
    &&& post.spec_universe() == pre.spec_universe()
    &&& post@ == pre@.insert(x)
}

/// `post` is what `delete(x)` makes of `pre`.
pub open spec fn is_delete_of(pre: VEBTree, post: VEBTree, x: int) -> bool {
    &&& post.wf()
    &&& post.spec_universe() == pre.spec_universe()
    &&& post@ == pre@.remove(x)
}

/// A change to a set of keys.
pub enum Op {
    Insert(int),
    Delete(int),
}

/// The set `s` after `op`.
pub open spec fn apply(s: Set<int>, op: Op) -> Set<int> {
    match op {
        Op::Insert(x) => s.insert(x),
        Op::Delete(x) => s.remove(x),
    }
}

/// The set `s` after the changes `ops`, one after the other.
pub open spec fn run(s: Set<int>, ops: Seq<Op>) -> Set<int>
    decreases ops.len(),
{
    if ops.len() == 0 {
        s
    } else {
        apply(run(s, ops.drop_last()), ops.last())
    }
}

/// `post` is what the operation that `op` names makes of `pre`.
pub open spec fn is_step(pre: VEBTree, post: VEBTree, op: Op) -> bool {
    match op {
        Op::Insert(x) => is_insert_of(pre, post, x),
        Op::Delete(x) => is_delete_of(pre, post, x),
    }
}

/// A tree taken through any run of insertions and deletions holds the keys
/// that a plain set holds after the same run, so every query of the tree,
/// whose result its contract fixes by the keys alone, answers as the set does.
/// `states` are the trees before the run, between its operations and after it.
pub proof fn lemma_model_equivalence(states: Seq<VEBTree>, ops: Seq<Op>)
    requires
        states.len() == ops.len() + 1,
        states[0].wf(),
        forall|i: int| 0 <= i < ops.len() ==> is_step(states[i], #[trigger] states[i + 1], ops[i]),
    ensures
        states.last().wf(),
        states.last().spec_universe() == states[0].spec_universe(),
        states.last()@ == run(states[0]@, ops),
    decreases ops.len(),
{
    if ops.len() > 0 {
        let n = ops.len() as int;
        let before = states.drop_last();
        assert forall|i: int| 0 <= i < n - 1 implies is_step(
            before[i],
            #[trigger] before[i + 1],
            ops.drop_last()[i],
        ) by {
            assert(is_step(states[i], states[i + 1], ops[i]));
        }
        lemma_model_equivalence(before, ops.drop_last());
        assert(before.last() == states[n - 1]);
        assert(is_step(states[n - 1], states[n - 1 + 1], ops[n - 1]));
    }
}

/// The set `s` with the values of `a` inserted one after the other.
pub open spec fn after_inserts(s: Set<int>, a: Seq<int>) -> Set<int>
    decreases a.len(),
{
    if a.len() == 0 {
        s
    } else {
        after_inserts(s, a.drop_last()).insert(a.last())
    }
}

/// The set `s` with the values of `a` removed one after the other.
pub open spec fn after_deletes(s: Set<int>, a: Seq<int>) -> Set<int>
    decreases a.len(),
{
    if a.len() == 0 {
        s
    } else {
        after_deletes(s, a.drop_last()).remove(a.last())
    }
}

/// A run of insertions adds exactly the values that occur in it.
pub proof fn lemma_after_inserts(s: Set<int>, a: Seq<int>)
    ensures
        forall|k: int| after_inserts(s, a).contains(k) <==> (s.contains(k) || a.contains(k)),
    decreases a.len(),
{
    if a.len() > 0 {
        lemma_after_inserts(s, a.drop_last());
        assert forall|k: int| after_inserts(s, a).contains(k) <==> (s.contains(k) || a.contains(
            k,
        )) by {
            if a.contains(k) {
                let i = choose|i: int| 0 <= i < a.len() && a[i] == k;
                if i < a.len() - 1 {
                    assert(a.drop_last()[i] == k);
                }
            }
            if a.drop_last().contains(k) {
                let i = choose|i: int| 0 <= i < a.drop_last().len() && a.drop_last()[i] == k;
                assert(a[i] == k);
            }
            assert(a[a.len() - 1] == a.last());
        }
    }
}

/// A run of deletions removes exactly the values that occur in it.
pub proof fn lemma_after_deletes(s: Set<int>, a: Seq<int>)
    ensures
        forall|k: int| after_deletes(s, a).contains(k) <==> (s.contains(k) && !a.contains(k)),
    decreases a.len(),
{
    if a.len() > 0 {
        lemma_after_deletes(s, a.drop_last());
        assert forall|k: int| after_deletes(s, a).contains(k) <==> (s.contains(k) && !a.contains(
            k,
        )) by {
            if a.contains(k) {
                let i = choose|i: int| 0 <= i < a.len() && a[i] == k;
                if i < a.len() - 1 {
                    assert(a.drop_last()[i] == k);
                }
            }
            if a.drop_last().contains(k) {
                let i = choose|i: int| 0 <= i < a.drop_last().len() && a.drop_last()[i] == k;
                assert(a[i] == k);
            }
            assert(a[a.len() - 1] == a.last());
        }
    }
}

/// Inserting a key a second time changes nothing: the tree after the second
/// insertion agrees with the tree after the first in every field of every
/// node.
pub proof fn lemma_insert_idempotent(t0: VEBTree, t1: VEBTree, t2: VEBTree, x: int)
    requires
        t0.wf(),
        is_insert_of(t0, t1, x),
        is_insert_of(t1, t2, x),
    ensures
        t2@ == t1@,
        t2.layout() == t1.layout(),
{
    assert(t2@ =~= t1@);
    t2.lemma_canonical(&t1);
}

/// Inserting a key that the tree does not hold and deleting it again gives
/// the tree back, in every field of every node.
pub proof fn lemma_insert_delete_roundtrip(t0: VEBTree, t1: VEBTree, t2: VEBTree, x: int)
    requires
        t0.wf(),
        !t0@.contains(x),
        is_insert_of(t0, t1, x),
        is_delete_of(t1, t2, x),
    ensures
        t2@ == t0@,
        t2.layout() == t0.layout(),
{
    assert(t2@ =~= t0@);
    t2.lemma_canonical(&t0);
}

/// Inserting the values of `a` into an empty tree and then deleting each of
/// them, in whatever order and however often, leaves the tree empty, and
/// laid out as when it was made.
pub proof fn lemma_total_deletion(fresh: VEBTree, end: VEBTree, a: Seq<int>, b: Seq<int>)
    requires
        fresh.wf(),
        fresh@ == Set::<int>::empty(),
        end.wf(),
        end.spec_universe() == fresh.spec_universe(),
        end@ == after_deletes(after_inserts(fresh@, a), b),
        forall|i: int| 0 <= i < a.len() ==> b.contains(#[trigger] a[i]),
    ensures
        end@ == Set::<int>::empty(),
        end.layout() == fresh.layout(),
{
    lemma_after_inserts(fresh@, a);
    lemma_after_deletes(after_inserts(fresh@, a), b);
    assert forall|k: int| !end@.contains(k) by {
        if a.contains(k) {
            let i = choose|i: int| 0 <= i < a.len() && a[i] == k;
            assert(b.contains(a[i]));
        }
    }
    assert(end@ =~= Set::<int>::empty());
    end.lemma_canonical(&fresh);
}

} // verus!
