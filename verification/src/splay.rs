//! The splay operations: rotations, the splay algorithm itself, and the
//! derived whole-tree operations (search-and-splay, insert-and-splay,
//! delete-and-splay, join, split).

use vstd::prelude::*;

verus! {

use vstd::multiset::Multiset;
use crate::tree::BinarySearchTree;
use crate::tree::Node;
use crate::tree::ms_lb;
use crate::tree::ms_ub;

broadcast use vstd::multiset::group_multiset_axioms;

/// The left operand of `join` must splay its greatest key into a root with
/// an empty right subtree. That is guaranteed when the tree is empty, when
/// its greatest key occurs exactly once, or when the root already holds a
/// greatest key and has no right child (the shape `split` leaves behind).
pub open spec fn joinable(t: BinarySearchTree) -> bool {
    ||| t.root is None
    ||| (forall|m: u64| t.ms().count(m) > 0 && ms_ub(t.ms(), m) ==> t.ms().count(m) == 1)
    ||| (t.root matches Some(n) && ms_ub(t.ms(), n.value) && n.right.root is None)
}

impl BinarySearchTree {
    /// Whether the root exists and has a left child.
    fn has_root_with_left(&self) -> (b: bool)
        ensures
            b == (self.root matches Some(n) && n.left.root is Some),
    {
        match &self.root {
            None => false,
            Some(n) => n.left.root.is_some(),
        }
    }

    /// Whether the root exists and has a right child.
    fn has_root_with_right(&self) -> (b: bool)
        ensures
            b == (self.root matches Some(n) && n.right.root is Some),
    {
        match &self.root {
            None => false,
            Some(n) => n.right.root.is_some(),
        }
    }

    /// Lifts the right child over the root: the right child becomes the new
    /// root, the old root becomes its left child, and the right child's old
    /// left subtree becomes the old root's new right subtree.
    pub fn left_rotate(&mut self)
        requires
            old(self).root matches Some(n) ==> n.right.root is Some,
        ensures
            old(self).root is None ==> *final(self) == *old(self),
            old(self).root matches Some(n) ==> (n.right.root matches Some(c) && (
            final(self).root matches Some(m) && m.value == c.value && m.right == c.right && (
            m.left.root matches Some(ml) && ml.value == n.value && ml.left == n.left && ml.right
                == c.left))),
            final(self)@ == old(self)@,
            old(self).wf() ==> final(self).wf(),
    {
        match self.root.take() {
            None => {
                proof {
                    assert(*self == *old(self));
                }
            },
            Some(mut root_box) => {
                let ghost oldn = *root_box;
                let mut right_tree = root_box.right.take();
                let mut right_box = right_tree.root.unwrap();
                let ghost oldc = *right_box;
                root_box.right = right_box.left.take();
                right_box.left = BinarySearchTree { root: Some(root_box) };
                self.root = Some(right_box);
                proof {
                    let inner = self.root.unwrap().left;
                    assert(inner.ms() == oldn.left.ms().insert(oldn.value).add(oldc.left.ms()));
                    assert(oldn.right.ms() == oldc.left.ms().insert(oldc.value).add(
                        oldc.right.ms(),
                    ));
                    assert(oldn.right.ms().count(oldc.value) > 0);
                    assert(self@ =~= old(self)@);
                    if old(self).wf() {
                        assert(oldn.right.wf());
                        assert(oldc.left.wf() && oldc.right.wf() && ms_ub(
                            oldc.left.ms(),
                            oldc.value,
                        ) && ms_lb(oldc.right.ms(), oldc.value));
                        assert forall|k: u64| oldc.left.ms().count(k) > 0 implies k
                            >= oldn.value by {
                            assert(oldn.right.ms().count(k) > 0);
                        }
                        assert forall|k: u64| inner.ms().count(k) > 0 implies k <= oldc.value by {
                            if oldc.left.ms().count(k) == 0 {
                                assert(k == oldn.value || oldn.left.ms().count(k) > 0);
                            }
                        }
                        assert(inner.wf());
                        assert(self.wf());
                    }
                }
            },
        }
    }

    /// Lifts the left child over the root: the mirror image of `left_rotate`.
    pub fn right_rotate(&mut self)
        requires
            old(self).root matches Some(n) ==> n.left.root is Some,
        ensures
            old(self).root is None ==> *final(self) == *old(self),
            old(self).root matches Some(n) ==> (n.left.root matches Some(c) && (
            final(self).root matches Some(m) && m.value == c.value && m.left == c.left && (
            m.right.root matches Some(mr) && mr.value == n.value && mr.right == n.right
                && mr.left == c.right))),
            final(self)@ == old(self)@,
            old(self).wf() ==> final(self).wf(),
    {
        match self.root.take() {
            None => {
                proof {
                    assert(*self == *old(self));
                }
            },
            Some(mut root_box) => {
                let ghost oldn = *root_box;
                let mut left_tree = root_box.left.take();
                let mut left_box = left_tree.root.unwrap();
                let ghost oldc = *left_box;
                root_box.left = left_box.right.take();
                left_box.right = BinarySearchTree { root: Some(root_box) };
                self.root = Some(left_box);
                proof {
                    let inner = self.root.unwrap().right;
                    assert(inner.ms() == oldc.right.ms().insert(oldn.value).add(oldn.right.ms()));
                    assert(oldn.left.ms() == oldc.left.ms().insert(oldc.value).add(
                        oldc.right.ms(),
                    ));
                    assert(oldn.left.ms().count(oldc.value) > 0);
                    assert(self@ =~= old(self)@);
                    if old(self).wf() {
                        assert(oldn.left.wf());
                        assert(oldc.left.wf() && oldc.right.wf() && ms_ub(
                            oldc.left.ms(),
                            oldc.value,
                        ) && ms_lb(oldc.right.ms(), oldc.value));
                        assert forall|k: u64| oldc.right.ms().count(k) > 0 implies k
                            <= oldn.value by {
                            assert(oldn.left.ms().count(k) > 0);
                        }
                        assert forall|k: u64| inner.ms().count(k) > 0 implies k >= oldc.value by {
                            if oldc.right.ms().count(k) == 0 {
                                assert(k == oldn.value || oldn.right.ms().count(k) > 0);
                            }
                        }
                        assert(inner.wf());
                        assert(self.wf());
                    }
                }
            },
        }
    }

    /// Restructures the tree along the comparison path toward `value`,
    /// lifting the matching node — or the last node visited — to the root.
    /// The key multiset is unchanged; a tree whose root already holds
    /// `value` is left untouched.
    pub fn splay(&mut self, value: &u64)
        requires
            old(self).wf(),
        ensures
            final(self).wf(),
            final(self)@ == old(self)@,
            final(self).root is Some <==> old(self).root is Some,
            old(self).contains(*value) ==> (final(self).root matches Some(n) && n.value
                == *value),
            old(self).root is Some ==> (final(self).root matches Some(n) && n.value == old(
                self,
            ).last_on_path(*value)),
            (old(self).root matches Some(n) && n.value == *value) ==> *final(self) == *old(self),
        decreases *old(self),
    {
        match self.root.take() {
            None => {},
            Some(mut root_box) => {
                let ghost oldn = *root_box;
                if root_box.value > *value {
                    proof {
                        assert(oldn.right.ms().count(*value) == 0);
                    }
                    match root_box.left.root.take() {
                        None => {
                            self.root = Some(root_box);
                            proof {
                                assert(oldn.left.ms() == Multiset::<u64>::empty());
                                assert(old(self)@.count(*value) == 0);
                                assert(*self == *old(self));
                                assert(old(self).last_on_path(*value) == oldn.value);
                            }
                        },
                        Some(mut left_box) => {
                            let ghost oldl = *left_box;
                            proof {
                                assert(oldn.left.wf());
                                assert(oldn.left.ms() == oldl.left.ms().insert(oldl.value).add(
                                    oldl.right.ms(),
                                ));
                                assert(old(self).last_on_path(*value) == oldn.left.last_on_path(
                                    *value,
                                ));
                            }
                            if left_box.value > *value {
                                // zig-zig: continue into the left child's left subtree
                                proof {
                                    assert(oldl.right.ms().count(*value) == 0);
                                }
                                left_box.left.splay(value);
                                let ghost ll2 = left_box.left;
                                root_box.left.root = Some(left_box);
                                self.root = Some(root_box);
                                proof {
                                    let inner = self.root.unwrap().left;
                                    assert(inner.ms() == ll2.ms().insert(oldl.value).add(
                                        oldl.right.ms(),
                                    ));
                                    assert(inner.ms() =~= oldn.left.ms());
                                    assert(self@ =~= old(self)@);
                                    assert(inner.wf());
                                    assert(self.wf());
                                }
                                self.right_rotate();
                                proof {
                                    assert(self.root.unwrap().left == ll2);
                                    assert(self.root.unwrap().value == oldl.value);
                                    if old(self)@.count(*value) > 0 {
                                        assert(oldl.left.ms().count(*value) > 0);
                                        assert(ll2.root.unwrap().value == *value);
                                    }
                                }
                                if self.has_root_with_left() {
                                    self.right_rotate();
                                }
                                proof {
                                    if old(self)@.count(*value) > 0 {
                                        assert(self.root.unwrap().value == *value);
                                    }
                                    if ll2.root is Some {
                                        assert(oldl.left.root is Some);
                                        assert(oldn.left.last_on_path(*value)
                                            == oldl.left.last_on_path(*value));
                                        assert(self.root.unwrap().value == ll2.root.unwrap().value);
                                    } else {
                                        assert(oldl.left.root is None);
                                        assert(oldn.left.last_on_path(*value) == oldl.value);
                                        assert(self.root.unwrap().value == oldl.value);
                                    }
                                    assert(self.root.unwrap().value == old(self).last_on_path(
                                        *value,
                                    ));
                                }
                            } else if left_box.value < *value {
                                // zig-zag: continue into the left child's right subtree
                                proof {
                                    assert(oldl.left.ms().count(*value) == 0);
                                }
                                left_box.right.splay(value);
                                let ghost lr2 = left_box.right;
                                let lr_nonempty = left_box.right.root.is_some();
                                root_box.left.root = Some(left_box);
                                proof {
                                    assert(root_box.left.ms() == oldl.left.ms().insert(
                                        oldl.value,
                                    ).add(lr2.ms()));
                                    assert(root_box.left.ms() =~= oldn.left.ms());
                                    assert(root_box.left.wf());
                                    if lr2.root is None {
                                        assert(lr2.ms() == Multiset::<u64>::empty());
                                    }
                                }
                                if lr_nonempty {
                                    root_box.left.left_rotate();
                                }
                                proof {
                                    if old(self)@.count(*value) > 0 {
                                        assert(oldl.right.ms().count(*value) > 0);
                                        assert(root_box.left.root.unwrap().value == *value);
                                    }
                                    if lr2.root is Some {
                                        assert(oldl.right.root is Some);
                                        assert(oldn.left.last_on_path(*value)
                                            == oldl.right.last_on_path(*value));
                                        assert(lr2.root.unwrap().value == oldl.right.last_on_path(
                                            *value,
                                        ));
                                        assert(root_box.left.root.unwrap().value
                                            == oldn.left.last_on_path(*value));
                                    } else {
                                        assert(oldl.right.root is None);
                                        assert(oldn.left.last_on_path(*value) == oldl.value);
                                        assert(root_box.left.root.unwrap().value == oldl.value);
                                    }
                                }
                                self.root = Some(root_box);
                                proof {
                                    assert(self@ =~= old(self)@);
                                    assert(self.wf());
                                }
                                if self.has_root_with_left() {
                                    self.right_rotate();
                                }
                                proof {
                                    if old(self)@.count(*value) > 0 {
                                        assert(self.root.unwrap().value == *value);
                                    }
                                    assert(self.root.unwrap().value == old(self).last_on_path(
                                        *value,
                                    ));
                                }
                            } else {
                                // the left child holds the key: one final lift
                                root_box.left.root = Some(left_box);
                                self.root = Some(root_box);
                                proof {
                                    assert(*self == *old(self));
                                    assert(old(self)@.count(*value) > 0);
                                }
                                if self.has_root_with_left() {
                                    self.right_rotate();
                                }
                                proof {
                                    assert(self.root.unwrap().value == *value);
                                    assert(old(self).last_on_path(*value) == oldl.value);
                                }
                            }
                        },
                    }
                } else if root_box.value < *value {
                    proof {
                        assert(oldn.left.ms().count(*value) == 0);
                    }
                    match root_box.right.root.take() {
                        None => {
                            self.root = Some(root_box);
                            proof {
                                assert(oldn.right.ms() == Multiset::<u64>::empty());
                                assert(old(self)@.count(*value) == 0);
                                assert(*self == *old(self));
                                assert(old(self).last_on_path(*value) == oldn.value);
                            }
                        },
                        Some(mut right_box) => {
                            let ghost oldr = *right_box;
                            proof {
                                assert(oldn.right.wf());
                                assert(oldn.right.ms() == oldr.left.ms().insert(oldr.value).add(
                                    oldr.right.ms(),
                                ));
                                assert(old(self).last_on_path(*value) == oldn.right.last_on_path(
                                    *value,
                                ));
                            }
                            if right_box.value < *value {
                                // zig-zig: continue into the right child's right subtree
                                proof {
                                    assert(oldr.left.ms().count(*value) == 0);
                                }
                                right_box.right.splay(value);
                                let ghost rr2 = right_box.right;
                                root_box.right.root = Some(right_box);
                                self.root = Some(root_box);
                                proof {
                                    let inner = self.root.unwrap().right;
                                    assert(inner.ms() == oldr.left.ms().insert(oldr.value).add(
                                        rr2.ms(),
                                    ));
                                    assert(inner.ms() =~= oldn.right.ms());
                                    assert(self@ =~= old(self)@);
                                    assert(inner.wf());
                                    assert(self.wf());
                                }
                                self.left_rotate();
                                proof {
                                    assert(self.root.unwrap().right == rr2);
                                    assert(self.root.unwrap().value == oldr.value);
                                    if old(self)@.count(*value) > 0 {
                                        assert(oldr.right.ms().count(*value) > 0);
                                        assert(rr2.root.unwrap().value == *value);
                                    }
                                }
                                if self.has_root_with_right() {
                                    self.left_rotate();
                                }
                                proof {
                                    if old(self)@.count(*value) > 0 {
                                        assert(self.root.unwrap().value == *value);
                                    }
                                    if rr2.root is Some {
                                        assert(oldr.right.root is Some);
                                        assert(oldn.right.last_on_path(*value)
                                            == oldr.right.last_on_path(*value));
                                        assert(self.root.unwrap().value == rr2.root.unwrap().value);
                                    } else {
                                        assert(oldr.right.root is None);
                                        assert(oldn.right.last_on_path(*value) == oldr.value);
                                        assert(self.root.unwrap().value == oldr.value);
                                    }
                                    assert(self.root.unwrap().value == old(self).last_on_path(
                                        *value,
                                    ));
                                }
                            } else if right_box.value > *value {
                                // zig-zag: continue into the right child's left subtree
                                proof {
                                    assert(oldr.right.ms().count(*value) == 0);
                                }
                                right_box.left.splay(value);
                                let ghost rl2 = right_box.left;
                                let rl_nonempty = right_box.left.root.is_some();
                                root_box.right.root = Some(right_box);
                                proof {
                                    assert(root_box.right.ms() == rl2.ms().insert(oldr.value).add(
                                        oldr.right.ms(),
                                    ));
                                    assert(root_box.right.ms() =~= oldn.right.ms());
                                    assert(root_box.right.wf());
                                    if rl2.root is None {
                                        assert(rl2.ms() == Multiset::<u64>::empty());
                                    }
                                }
                                if rl_nonempty {
                                    root_box.right.right_rotate();
                                }
                                proof {
                                    if old(self)@.count(*value) > 0 {
                                        assert(oldr.left.ms().count(*value) > 0);
                                        assert(root_box.right.root.unwrap().value == *value);
                                    }
                                    if rl2.root is Some {
                                        assert(oldr.left.root is Some);
                                        assert(oldn.right.last_on_path(*value)
                                            == oldr.left.last_on_path(*value));
                                        assert(rl2.root.unwrap().value == oldr.left.last_on_path(
                                            *value,
                                        ));
                                        assert(root_box.right.root.unwrap().value
                                            == oldn.right.last_on_path(*value));
                                    } else {
                                        assert(oldr.left.root is None);
                                        assert(oldn.right.last_on_path(*value) == oldr.value);
                                        assert(root_box.right.root.unwrap().value == oldr.value);
                                    }
                                }
                                self.root = Some(root_box);
                                proof {
                                    assert(self@ =~= old(self)@);
                                    assert(self.wf());
                                }
                                if self.has_root_with_right() {
                                    self.left_rotate();
                                }
                                proof {
                                    if old(self)@.count(*value) > 0 {
                                        assert(self.root.unwrap().value == *value);
                                    }
                                    assert(self.root.unwrap().value == old(self).last_on_path(
                                        *value,
                                    ));
                                }
                            } else {
                                // the right child holds the key: one final lift
                                root_box.right.root = Some(right_box);
                                self.root = Some(root_box);
                                proof {
                                    assert(*self == *old(self));
                                    assert(old(self)@.count(*value) > 0);
                                }
                                if self.has_root_with_right() {
                                    self.left_rotate();
                                }
                                proof {
                                    assert(self.root.unwrap().value == *value);
                                    assert(old(self).last_on_path(*value) == oldr.value);
                                }
                            }
                        },
                    }
                } else {
                    // the root already holds the key
                    self.root = Some(root_box);
                    proof {
                        assert(*self == *old(self));
                        assert(old(self).last_on_path(*value) == oldn.value);
                    }
                }
            },
        }
    }

    /// Splays on `value` and reports the root exactly when the key was
    /// present. The tree is restructured even when the search fails; a tree
    /// whose root already holds `value` is left untouched.
    pub fn search_splay(&mut self, value: &u64) -> (r: Option<&Node>)
        requires
            old(self).wf(),
        ensures
            final(self).wf(),
            final(self)@ == old(self)@,
            r is Some <==> old(self).contains(*value),
            r matches Some(n) ==> n.value == *value,
            old(self).contains(*value) ==> (final(self).root matches Some(n) && n.value
                == *value),
            old(self).root is Some ==> (final(self).root matches Some(n) && n.value == old(
                self,
            ).last_on_path(*value)),
            (old(self).root matches Some(n) && n.value == *value) ==> *final(self) == *old(self),
    {
        self.splay(value);
        proof {
            if self.root is Some {
                assert(self@.count(self.root.unwrap().value) > 0);
            }
        }
        match &self.root {
            None => None,
            Some(n) => {
                if n.value == *value {
                    Some(&**n)
                } else {
                    None
                }
            },
        }
    }

    /// Concatenates two trees: splays `t1` on its greatest key, which lifts
    /// that key to a root without a right child, and hangs `t2` there. Every
    /// key of `t1` must be at most every key of `t2`, and `t1` must be
    /// `joinable`: a duplicated greatest key can survive a splay in the
    /// root's right subtree, and the relinking would drop it.
    pub fn join(t1: Self, t2: Self) -> (r: Self)
        requires
            t1.wf(),
            t2.wf(),
            joinable(t1),
            forall|x: u64, y: u64| t1@.count(x) > 0 && t2@.count(y) > 0 ==> x <= y,
        ensures
            r.wf(),
            r@ == t1@.add(t2@),
            t1.root is None ==> r == t2,
            t1.root is Some ==> (r.root matches Some(n) && n.right == t2 && t1.contains(n.value)
                && ms_ub(t1@, n.value) && n.left@ == t1@.remove(n.value)),
    {
        let ghost t0 = t1;
        let mut t1 = t1;
        let max_found: Option<u64> = match t1.max_value() {
            None => None,
            Some(n) => Some(n.value),
        };
        match max_found {
            None => {
                proof {
                    assert(t0.ms() == Multiset::<u64>::empty());
                    assert(t0@.add(t2@) =~= t2@);
                }
                t2
            },
            Some(m) => {
                t1.splay(&m);
                proof {
                    let n = t1.root.unwrap();
                    assert(n.value == m);
                    if t0.root is Some && ms_ub(t0.ms(), t0.root.unwrap().value)
                        && t0.root.unwrap().right.root is None {
                        crate::tree::lemma_root_in_ms(t0);
                        assert(t0.root.unwrap().value == m);
                        assert(t1 == t0);
                    } else {
                        assert(forall|mm: u64|
                            t0.ms().count(mm) > 0 && ms_ub(t0.ms(), mm) ==> t0.ms().count(mm)
                                == 1);
                        assert(t0@.count(m) == 1);
                        assert(t1@ == t0@);
                        assert(t1@ == n.left.ms().insert(n.value).add(n.right.ms()));
                        assert forall|k: u64| n.right.ms().count(k) == 0 by {
                            if n.right.ms().count(k) > 0 {
                                assert(t1@.count(k) > 0);
                                assert(k >= m && k <= m);
                                assert(n.right.ms().count(m) == 0);
                            }
                        }
                        assert(n.right.ms() =~= Multiset::<u64>::empty());
                        crate::tree::lemma_empty_ms(n.right);
                    }
                    assert(t1.root.unwrap().right.root is None);
                }
                match t1.root.take() {
                    Some(mut root_box) => {
                        let ghost sn = *root_box;
                        root_box.right = t2;
                        t1.root = Some(root_box);
                        proof {
                            assert(sn.right.ms() == Multiset::<u64>::empty());
                            assert(t1@ =~= t0@.add(t2@));
                            assert(sn.left.ms() =~= t0@.remove(m));
                            assert forall|k: u64| t2@.count(k) > 0 implies k >= sn.value by {
                                assert(t0@.count(sn.value) > 0);
                            }
                            assert(t1.wf());
                        }
                        t1
                    },
                    None => {
                        proof {
                            assert(false);
                        }
                        t1
                    },
                }
            },
        }
    }

    /// Splays on `value` and detaches the root's right subtree as a new
    /// tree. The receiver keeps the keys at most the splayed root's key and
    /// the result the keys at least it; when `value` was absent the boundary
    /// is the last key visited, not `value` itself. Empty on an empty tree.
    pub fn split(&mut self, value: &u64) -> (r: Option<Self>)
        requires
            old(self).wf(),
        ensures
            old(self).root is None ==> r is None && *final(self) == *old(self),
            old(self).root is Some ==> (r matches Some(rt) && {
                &&& rt.wf()
                &&& final(self).wf()
                &&& final(self)@.add(rt@) == old(self)@
                &&& (final(self).root matches Some(n) && n.right.root is None && ms_ub(
                    final(self)@,
                    n.value,
                ) && ms_lb(rt@, n.value) && n.value == old(self).last_on_path(*value) && (old(
                    self,
                ).contains(*value) ==> n.value == *value))
                &&& joinable(*final(self))
            }),
    {
        self.splay(value);
        let ghost s1 = *self;
        match self.root.take() {
            None => {
                proof {
                    assert(*self == *old(self));
                }
                None
            },
            Some(mut root_box) => {
                let ghost sn = *root_box;
                let right = root_box.right.take();
                self.root = Some(root_box);
                proof {
                    assert(s1@ == sn.left.ms().insert(sn.value).add(sn.right.ms()));
                    assert(self@ =~= sn.left.ms().insert(sn.value));
                    assert(self@.add(right@) =~= old(self)@);
                    assert(self.wf());
                    assert forall|k: u64| self@.count(k) > 0 implies k <= sn.value by {
                        if k != sn.value {
                            assert(sn.left.ms().count(k) > 0);
                        }
                    }
                }
                Some(right)
            },
        }
    }

    /// Splays on `value`; when the key surfaces at the root, removes that
    /// node and joins the two detached subtrees, and otherwise leaves the
    /// tree as splayed, the last visited key at the root. When the key is
    /// present the tree's keys must be distinct: under duplicates the join
    /// step could drop occurrences of the removed key, as `join` explains.
    pub fn delete_splay(&mut self, value: u64)
        requires
            old(self).wf(),
            old(self).contains(value) ==> forall|k: u64| old(self)@.count(k) <= 1,
        ensures
            final(self).wf(),
            old(self).contains(value) ==> final(self)@ == old(self)@.remove(value),
            !old(self).contains(value) ==> final(self)@ == old(self)@,
            !old(self).contains(value) && old(self).root is Some ==> (final(self).root matches Some(
                n,
            ) && n.value == old(self).last_on_path(value)),
    {
        self.splay(&value);
        let ghost s1 = *self;
        match self.root.take() {
            None => {
                proof {
                    assert(old(self)@.count(value) == 0);
                }
            },
            Some(mut root_box) => {
                let ghost sn = *root_box;
                if root_box.value == value {
                    let left = root_box.left.take();
                    let right = root_box.right.take();
                    proof {
                        assert(s1@ == sn.left.ms().insert(sn.value).add(sn.right.ms()));
                        assert(old(self).contains(value));
                        assert forall|x: u64, y: u64|
                            left@.count(x) > 0 && right@.count(y) > 0 implies x <= y by {
                            assert(x <= value && y >= value);
                        }
                        assert forall|mm: u64|
                            left.ms().count(mm) > 0 && ms_ub(left.ms(), mm) implies left.ms().count(
                            mm,
                        ) == 1 by {
                            assert(old(self)@.count(mm) <= 1);
                            assert(s1@.count(mm) >= left.ms().count(mm));
                        }
                        assert(joinable(left));
                    }
                    *self = Self::join(left, right);
                    proof {
                        assert(s1@.count(value) == sn.left.ms().count(value) + 1
                            + sn.right.ms().count(value));
                        assert(self@ =~= old(self)@.remove(value));
                    }
                } else {
                    self.root = Some(root_box);
                    proof {
                        assert(old(self)@.count(value) == 0);
                        assert(*self == s1);
                    }
                }
            },
        }
    }

    /// Inserts `value` and then splays on it, so the freshly inserted key
    /// ends at the root.
    pub fn insert_splay(&mut self, value: u64)
        requires
            old(self).wf(),
        ensures
            final(self).wf(),
            final(self)@ == old(self)@.insert(value),
            final(self).root matches Some(n) && n.value == value,
    {
        self.insert(value);
        self.splay(&value);
    }
}

} // verus!
