//! The tree structure, its mathematical model, and the plain
//! binary-search-tree operations (insert, search, delete, min, max).

use vstd::prelude::*;

verus! {

use vstd::multiset::Multiset;

broadcast use vstd::multiset::group_multiset_axioms;

/// A single keyed element owning its two subtrees.
pub struct Node {
    pub value: u64,
    pub left: BinarySearchTree,
    pub right: BinarySearchTree,
}

/// A binary search tree: either empty or exactly one root node.
pub struct BinarySearchTree {
    pub root: Option<Box<Node>>,
}

/// The splay operations extend the plain binary search tree in place.
pub type SplayTree = BinarySearchTree;

/// Every key counted in `m` is at most `b`.
pub open spec fn ms_ub(m: Multiset<u64>, b: u64) -> bool {
    forall|k: u64| m.count(k) > 0 ==> k <= b
}

/// Every key counted in `m` is at least `b`.
pub open spec fn ms_lb(m: Multiset<u64>, b: u64) -> bool {
    forall|k: u64| m.count(k) > 0 ==> k >= b
}

impl BinarySearchTree {
    /// The multiset of keys held by the tree.
    pub open spec fn ms(self) -> Multiset<u64>
        decreases self,
    {
        match self.root {
            None => Multiset::empty(),
            Some(n) => n.left.ms().insert(n.value).add(n.right.ms()),
        }
    }

    /// The order invariant: in every node, the keys of the left subtree are
    /// at most the node's key and the keys of the right subtree at least it.
    pub open spec fn wf(self) -> bool
        decreases self,
    {
        match self.root {
            None => true,
            Some(n) => n.left.wf() && n.right.wf() && ms_ub(n.left.ms(), n.value) && ms_lb(
                n.right.ms(),
                n.value,
            ),
        }
    }

    /// The key occurs in the tree at least once.
    pub open spec fn contains(self, k: u64) -> bool {
        self.ms().count(k) > 0
    }

    /// The tree that inserting `value` produces: descent goes right only
    /// when the node's key is strictly less than `value`, so equal keys
    /// tie-break into the left subtree, and a new leaf grows where the
    /// descent runs out.
    pub open spec fn spec_insert(self, value: u64) -> BinarySearchTree
        decreases self,
    {
        match self.root {
            None => BinarySearchTree {
                root: Some(
                    Box::new(
                        Node {
                            value,
                            left: BinarySearchTree { root: None },
                            right: BinarySearchTree { root: None },
                        },
                    ),
                ),
            },
            Some(n) => {
                if n.value < value {
                    BinarySearchTree {
                        root: Some(
                            Box::new(
                                Node {
                                    value: n.value,
                                    left: n.left,
                                    right: n.right.spec_insert(value),
                                },
                            ),
                        ),
                    }
                } else {
                    BinarySearchTree {
                        root: Some(
                            Box::new(
                                Node {
                                    value: n.value,
                                    left: n.left.spec_insert(value),
                                    right: n.right,
                                },
                            ),
                        ),
                    }
                }
            },
        }
    }

    /// The key of the last node visited when descending toward `value` by
    /// three-way comparison: `value` itself where the key is present, else
    /// the key of the node where the needed child was missing (the nearest
    /// ancestor position). On an empty tree the descent visits nothing and
    /// this returns `value`.
    pub open spec fn last_on_path(self, value: u64) -> u64
        decreases self,
    {
        match self.root {
            None => value,
            Some(n) => {
                if value < n.value {
                    if n.left.root is Some {
                        n.left.last_on_path(value)
                    } else {
                        n.value
                    }
                } else if value > n.value {
                    if n.right.root is Some {
                        n.right.last_on_path(value)
                    } else {
                        n.value
                    }
                } else {
                    n.value
                }
            },
        }
    }
}

impl View for BinarySearchTree {
    type V = Multiset<u64>;

    open spec fn view(&self) -> Multiset<u64> {
        self.ms()
    }
}

/// A non-empty tree counts its root's key, and an empty tree counts nothing.
pub proof fn lemma_root_in_ms(t: BinarySearchTree)
    ensures
        t.root matches Some(n) ==> t.ms().count(n.value) > 0,
        t.root is None ==> t.ms() == Multiset::<u64>::empty(),
{
}

/// A tree whose key multiset is empty has no root node.
pub proof fn lemma_empty_ms(t: BinarySearchTree)
    requires
        t.ms() == Multiset::<u64>::empty(),
    ensures
        t.root is None,
{
    if t.root is Some {
        lemma_root_in_ms(t);
    }
}

impl BinarySearchTree {
    /// Creates an empty tree.
    pub fn new() -> (t: Self)
        ensures
            t.root is None,
            t@ == Multiset::<u64>::empty(),
            t.wf(),
    {
        BinarySearchTree { root: None }
    }

    /// Moves the whole tree out, leaving an empty tree behind.
    pub fn take(&mut self) -> (t: Self)
        ensures
            t == *old(self),
            final(self).root is None,
            final(self)@ == Multiset::<u64>::empty(),
            final(self).wf(),
    {
        let t = BinarySearchTree { root: self.root.take() };
        proof {
            assert(t == *old(self));
        }
        t
    }

    /// Inserts one occurrence of `value`; equal keys are routed into the
    /// left subtree, so duplicates are kept.
    pub fn insert(&mut self, value: u64)
        requires
            old(self).wf(),
        ensures
            final(self).wf(),
            final(self)@ == old(self)@.insert(value),
            final(self).root is Some,
            *final(self) == old(self).spec_insert(value),
        decreases *old(self),
    {
        match self.root.take() {
            None => {
                self.root = Some(
                    Box::new(
                        Node {
                            value,
                            left: BinarySearchTree { root: None },
                            right: BinarySearchTree { root: None },
                        },
                    ),
                );
                proof {
                    assert(self@ =~= old(self)@.insert(value));
                    assert(*self == old(self).spec_insert(value));
                }
            },
            Some(mut boxed) => {
                let ghost oldn = *boxed;
                if boxed.value < value {
                    boxed.right.insert(value);
                    proof {
                        assert forall|k: u64| boxed.right.ms().count(k) > 0 implies k
                            >= boxed.value by {
                            if k != value {
                                assert(oldn.right.ms().count(k) > 0);
                            }
                        }
                    }
                } else {
                    boxed.left.insert(value);
                    proof {
                        assert forall|k: u64| boxed.left.ms().count(k) > 0 implies k
                            <= boxed.value by {
                            if k != value {
                                assert(oldn.left.ms().count(k) > 0);
                            }
                        }
                    }
                }
                self.root = Some(boxed);
                proof {
                    assert(self@ =~= old(self)@.insert(value));
                    assert(self.wf());
                    assert(*self == old(self).spec_insert(value));
                }
            },
        }
    }

    /// Searches for `value` by three-way comparison without restructuring;
    /// returns a matching node exactly when the key is present.
    pub fn search(&self, value: u64) -> (r: Option<&Node>)
        requires
            self.wf(),
        ensures
            r is Some <==> self.contains(value),
            r matches Some(n) ==> n.value == value,
        decreases self,
    {
        match &self.root {
            None => None,
            Some(n) => {
                if n.value == value {
                    Some(&**n)
                } else if n.value > value {
                    proof {
                        assert(n.right.ms().count(value) == 0);
                    }
                    n.left.search(value)
                } else {
                    proof {
                        assert(n.left.ms().count(value) == 0);
                    }
                    n.right.search(value)
                }
            },
        }
    }

    /// The leftmost node: it has no left child, its key occurs in the tree
    /// and bounds every key from below. Empty exactly on the empty tree.
    pub fn min_value(&self) -> (r: Option<&Node>)
        requires
            self.wf(),
        ensures
            r is Some <==> self.root is Some,
            r matches Some(n) ==> self.contains(n.value) && ms_lb(self@, n.value) && n.left.root
                is None,
        decreases self,
    {
        match &self.root {
            None => None,
            Some(n) => {
                if n.left.root.is_some() {
                    let r = n.left.min_value();
                    proof {
                        let m = r.unwrap().value;
                        assert(self@.count(m) > 0) by {
                            assert(n.left.ms().count(m) > 0);
                        }
                        assert forall|k: u64| self@.count(k) > 0 implies k >= m by {
                            assert(n.left.ms().count(m) > 0);
                            if n.left.ms().count(k) == 0 {
                                assert(k == n.value || n.right.ms().count(k) > 0);
                            }
                        }
                    }
                    r
                } else {
                    proof {
                        assert forall|k: u64| self@.count(k) > 0 implies k >= n.value by {
                            assert(n.left.ms().count(k) == 0);
                        }
                    }
                    Some(&**n)
                }
            },
        }
    }

    /// The rightmost node: it has no right child, its key occurs in the
    /// tree and bounds every key from above. Empty exactly on the empty
    /// tree.
    pub fn max_value(&self) -> (r: Option<&Node>)
        requires
            self.wf(),
        ensures
            r is Some <==> self.root is Some,
            r matches Some(n) ==> self.contains(n.value) && ms_ub(self@, n.value) && n.right.root
                is None,
        decreases self,
    {
        match &self.root {
            None => None,
            Some(n) => {
                if n.right.root.is_some() {
                    let r = n.right.max_value();
                    proof {
                        let m = r.unwrap().value;
                        assert(self@.count(m) > 0) by {
                            assert(n.right.ms().count(m) > 0);
                        }
                        assert forall|k: u64| self@.count(k) > 0 implies k <= m by {
                            assert(n.right.ms().count(m) > 0);
                            if n.right.ms().count(k) == 0 {
                                assert(k == n.value || n.left.ms().count(k) > 0);
                            }
                        }
                    }
                    r
                } else {
                    proof {
                        assert forall|k: u64| self@.count(k) > 0 implies k <= n.value by {
                            assert(n.right.ms().count(k) == 0);
                        }
                    }
                    Some(&**n)
                }
            },
        }
    }

    /// Removes one occurrence of `value` if present (a no-op otherwise) and
    /// hands back a detached node carrying `value` with both subtrees empty.
    pub fn delete(&mut self, value: &u64) -> (r: Option<Box<Node>>)
        requires
            old(self).wf(),
        ensures
            final(self).wf(),
            old(self).contains(*value) ==> final(self)@ == old(self)@.remove(*value),
            !old(self).contains(*value) ==> *final(self) == *old(self) && r is None,
            r is Some <==> old(self).contains(*value),
            r matches Some(n) ==> n.value == *value && n.left.root is None && n.right.root
                is None,
        decreases *old(self),
    {
        match self.root.take() {
            None => {
                proof {
                    assert(*self == *old(self));
                }
                None
            },
            Some(mut boxed) => {
                let ghost oldn = *boxed;
                if boxed.value > *value {
                    proof {
                        assert(oldn.right.ms().count(*value) == 0);
                    }
                    let r = boxed.left.delete(value);
                    self.root = Some(boxed);
                    proof {
                        assert forall|k: u64| boxed.left.ms().count(k) > 0 implies k
                            <= boxed.value by {
                            assert(oldn.left.ms().count(k) > 0);
                        }
                        if oldn.left.ms().count(*value) > 0 {
                            assert(self@ =~= old(self)@.remove(*value));
                        } else {
                            assert(*self == *old(self));
                        }
                    }
                    r
                } else if boxed.value < *value {
                    proof {
                        assert(oldn.left.ms().count(*value) == 0);
                    }
                    let r = boxed.right.delete(value);
                    self.root = Some(boxed);
                    proof {
                        assert forall|k: u64| boxed.right.ms().count(k) > 0 implies k
                            >= boxed.value by {
                            assert(oldn.right.ms().count(k) > 0);
                        }
                        if oldn.right.ms().count(*value) > 0 {
                            assert(self@ =~= old(self)@.remove(*value));
                        } else {
                            assert(*self == *old(self));
                        }
                    }
                    r
                } else {
                    if boxed.left.root.is_none() {
                        self.root = boxed.right.root.take();
                        proof {
                            assert(*self == oldn.right);
                            assert(self@ =~= old(self)@.remove(*value));
                        }
                        Some(boxed)
                    } else if boxed.right.root.is_some() {
                        let m: u64 = boxed.right.min_value().unwrap().value;
                        let mut other = boxed.right.delete(&m).unwrap();
                        let tmp = other.value;
                        other.value = boxed.value;
                        boxed.value = tmp;
                        self.root = Some(boxed);
                        proof {
                            assert forall|k: u64| boxed.right.ms().count(k) > 0 implies k >= m by {
                                assert(oldn.right.ms().count(k) > 0);
                            }
                            assert forall|k: u64| boxed.left.ms().count(k) > 0 implies k <= m by {
                                assert(k <= oldn.value && oldn.right.ms().count(m) > 0);
                            }
                            assert(self@ =~= old(self)@.remove(*value));
                        }
                        Some(other)
                    } else {
                        self.root = boxed.left.root.take();
                        proof {
                            assert(*self == oldn.left);
                            assert(self@ =~= old(self)@.remove(*value));
                        }
                        Some(boxed)
                    }
                }
            },
        }
    }
}

} // verus!
