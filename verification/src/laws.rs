//! Whole-library laws, stated over the same spec functions the operation
//! contracts use and proved once and for all.

use vstd::prelude::*;

verus! {

use vstd::multiset::Multiset;
use crate::tree::BinarySearchTree;
use crate::tree::ms_lb;
use crate::tree::ms_ub;
use crate::splay::joinable;

broadcast use vstd::multiset::group_multiset_axioms;

/// Insert/search correctness: a tree built by inserting the keys of `vs`
/// into an empty tree holds multiset `vs.to_multiset()` (by `insert`'s
/// contract), and that multiset counts `v` exactly when `vs` contains `v` —
/// so, by `search`'s contract, every inserted key is found and every other
/// key is not.
pub proof fn lemma_insert_search(vs: Seq<u64>, v: u64)
    ensures
        vs.to_multiset().count(v) > 0 <==> vs.contains(v),
{
    broadcast use vstd::seq_lib::group_to_multiset_ensures;

}

/// Delete correctness, completed: removing one occurrence of an
/// unduplicated key leaves none behind, so after `delete(v)` — whose
/// contract takes the multiset to `m.remove(v)` — a `search(v)` fails.
pub proof fn lemma_removed_key_not_found(m: Multiset<u64>, v: u64)
    requires
        m.count(v) <= 1,
    ensures
        m.remove(v).count(v) == 0,
{
}

/// Join/split relationship: the two parts `split` hands back (the receiver
/// and the detached right tree, whose multisets add up to the original
/// keys) satisfy `join`'s preconditions, so `join`'s contract restores
/// exactly the original key multiset.
pub proof fn lemma_split_then_join(
    part: BinarySearchTree,
    detached: BinarySearchTree,
    orig: Multiset<u64>,
)
    requires
        part.wf(),
        detached.wf(),
        part@.add(detached@) == orig,
        part.root matches Some(n) ==> (n.right.root is None && ms_ub(part@, n.value) && ms_lb(
            detached@,
            n.value,
        )),
        part.root is None ==> detached@ == Multiset::<u64>::empty(),
    ensures
        joinable(part),
        forall|x: u64, y: u64| part@.count(x) > 0 && detached@.count(y) > 0 ==> x <= y,
        part@.add(detached@) == orig,
{
    if part.root is Some {
        let b = part.root.unwrap().value;
        assert(ms_ub(part.ms(), b));
        assert forall|x: u64, y: u64|
            part@.count(x) > 0 && detached@.count(y) > 0 implies x <= y by {
            assert(x <= b && y >= b);
        }
    } else {
        assert(part.ms() == Multiset::<u64>::empty());
    }
}

} // verus!
