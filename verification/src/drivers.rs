//! Verified scenario drivers: each takes a whole slice of keys and checks
//! every search result against the tree's stated contents.

use vstd::prelude::*;

verus! {

use crate::tree::BinarySearchTree;

broadcast use vstd::multiset::group_multiset_axioms, vstd::seq_lib::group_to_multiset_ensures;

/// Inserts every key of `inserted`, then checks that each of them is found
/// and that none of the keys of `not_inserted` — keys the tree never held —
/// is found.
#[verifier::loop_isolation(false)]
pub fn test_insert(tree: &mut BinarySearchTree, inserted: &[u64], not_inserted: &[u64])
    requires
        old(tree).wf(),
        forall|i: int|
            0 <= i < not_inserted@.len() ==> old(tree)@.count(#[trigger] not_inserted@[i]) == 0,
        forall|i: int|
            0 <= i < not_inserted@.len() ==> !inserted@.contains(#[trigger] not_inserted@[i]),
    ensures
        final(tree).wf(),
        final(tree)@ == old(tree)@.add(inserted@.to_multiset()),
{
    let n = inserted.len();
    for i in 0..n
        invariant
            tree.wf(),
            tree@ == old(tree)@.add(inserted@.subrange(0, i as int).to_multiset()),
    {
        tree.insert(inserted[i]);
        proof {
            assert(inserted@.subrange(0, i + 1) =~= inserted@.subrange(0, i as int).push(
                inserted@[i as int],
            ));
            assert(tree@ =~= old(tree)@.add(inserted@.subrange(0, i + 1).to_multiset()));
        }
    }
    proof {
        assert(inserted@.subrange(0, inserted@.len() as int) =~= inserted@);
    }
    for i in 0..n
        invariant
            tree.wf(),
            tree@ == old(tree)@.add(inserted@.to_multiset()),
    {
        let r = tree.search(inserted[i]);
        proof {
            assert(inserted@.contains(inserted@[i as int]));
        }
        assert(r is Some);
    }
    let m = not_inserted.len();
    for i in 0..m
        invariant
            tree.wf(),
            tree@ == old(tree)@.add(inserted@.to_multiset()),
    {
        let r = tree.search(not_inserted[i]);
        proof {
            assert(!inserted@.contains(not_inserted@[i as int]));
            assert(inserted@.to_multiset().count(not_inserted@[i as int]) == 0);
        }
        assert(r is None);
    }
}

/// Splays on every key of `inserted` — each must surface at the root — and
/// on every key of `not_inserted`, which must all miss; the key multiset
/// must come through it all unchanged.
#[verifier::loop_isolation(false)]
pub fn test_splay(tree: &mut BinarySearchTree, inserted: &[u64], not_inserted: &[u64])
    requires
        old(tree).wf(),
        forall|i: int| 0 <= i < inserted@.len() ==> old(tree)@.count(#[trigger] inserted@[i]) > 0,
        forall|i: int|
            0 <= i < not_inserted@.len() ==> old(tree)@.count(#[trigger] not_inserted@[i]) == 0,
    ensures
        final(tree).wf(),
        final(tree)@ == old(tree)@,
{
    let n = inserted.len();
    for i in 0..n
        invariant
            tree.wf(),
            tree@ == old(tree)@,
    {
        let v = inserted[i];
        let r = tree.search_splay(&v);
        assert(r is Some);
        assert(r.unwrap().value == v);
    }
    let m = not_inserted.len();
    for i in 0..m
        invariant
            tree.wf(),
            tree@ == old(tree)@,
    {
        let v = not_inserted[i];
        let r = tree.search_splay(&v);
        assert(r is None);
    }
}

} // verus!
