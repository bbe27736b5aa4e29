//! Data structures and algorithms for testing purposes.

use crate::ghgt;
use crate::gseq;
use crate::gsize;
use crate::GTree;
use crate::Node;
use vstd::prelude::*;

verus! {

/// Result of measuring a tree: its level (height plus one) together with
/// whether every node's children stay within the measured tolerance.
#[derive(Clone, Copy, Debug, PartialEq, Eq)]
pub enum Level {
    Balanced(u32),
    Imbalanced(u32),
}

impl Level {
    /// The measured level, whether balanced or not.
    pub open spec fn value_spec(self) -> u32 {
        match self {
            Level::Balanced(e) => e,
            Level::Imbalanced(e) => e,
        }
    }

    /// Whether this measurement found the tree balanced.
    pub fn is_balanced(self) -> (r: bool)
        ensures
            r == (self is Balanced),
    {
        match self {
            Level::Balanced(_) => true,
            Level::Imbalanced(_) => false,
        }
    }

    /// The measured level.
    pub fn as_u32(self) -> (r: u32)
        ensures
            r == self.value_spec(),
    {
        match self {
            Level::Balanced(e) => e,
            Level::Imbalanced(e) => e,
        }
    }
}

/// Specification of `compute_level`: the level of a tree is its height plus
/// one, and the tree counts as balanced when, at every node, the levels of
/// the two children differ by at most `tolerance`.
pub open spec fn level_spec<V>(t: GTree<V>, tolerance: int) -> Level
    decreases t,
{
    match t {
        GTree::Tip => Level::Balanced(0),
        GTree::Branch { left, val, right } => {
            let ll = level_spec(*left, tolerance);
            let rl = level_spec(*right, tolerance);
            let maxv = if ll.value_spec() >= rl.value_spec() {
                ll.value_spec()
            } else {
                rl.value_spec()
            };
            let minv = if ll.value_spec() <= rl.value_spec() {
                ll.value_spec()
            } else {
                rl.value_spec()
            };
            if ll is Balanced && rl is Balanced {
                if maxv - minv > tolerance {
                    Level::Imbalanced((maxv + 1) as u32)
                } else {
                    Level::Balanced((maxv + 1) as u32)
                }
            } else {
                Level::Imbalanced((maxv + 1) as u32)
            }
        },
    }
}

/// The level measured for a tree is always its height plus one.
pub proof fn lemma_level_value<V>(t: GTree<V>, tolerance: int)
    requires
        ghgt(t) + 1 <= u32::MAX,
    ensures
        level_spec(t, tolerance).value_spec() == ghgt(t) + 1,
    decreases t,
{
    match t {
        GTree::Tip => (),
        GTree::Branch { left, val, right } => {
            lemma_level_value(*left, tolerance);
            lemma_level_value(*right, tolerance);
        },
    }
}

/// Recursively calculate the level of this node and check whether it is
/// balanced.
///
/// `level = height + 1`. The node is considered balanced if, at every node,
/// the difference in levels of the child nodes is not greater than
/// `tolerance`.
pub fn compute_level<N: Node>(node: &N, tolerance: u32) -> (r: Level)
    requires
        ghgt(node.model()) + 2 <= u32::MAX,
    ensures
        r == level_spec(node.model(), tolerance as int),
    decreases gsize(node.model()),
{
    proof {
        node.lemma_model_branch();
        lemma_level_value(node.model(), tolerance as int);
        lemma_level_value(crate::gleft(node.model()), tolerance as int);
        lemma_level_value(crate::gright(node.model()), tolerance as int);
    }
    let llevel = match node.left() {
        None => Level::Balanced(0),
        Some(l) => {
            proof {
                assert(gsize(l.model()) < gsize(node.model()));
                assert(ghgt(l.model()) < ghgt(node.model()));
            }
            compute_level(l, tolerance)
        },
    };
    let rlevel = match node.right() {
        None => Level::Balanced(0),
        Some(r) => {
            proof {
                assert(gsize(r.model()) < gsize(node.model()));
                assert(ghgt(r.model()) < ghgt(node.model()));
            }
            compute_level(r, tolerance)
        },
    };
    let lv = llevel.as_u32();
    let rv = rlevel.as_u32();
    let maxv = if lv >= rv {
        lv
    } else {
        rv
    };
    let minv = if lv <= rv {
        lv
    } else {
        rv
    };
    if llevel.is_balanced() && rlevel.is_balanced() {
        if maxv - minv > tolerance {
            Level::Imbalanced(maxv + 1)
        } else {
            Level::Balanced(maxv + 1)
        }
    } else {
        Level::Imbalanced(maxv + 1)
    }
}

/// A minimal `Node` implementation.
///
/// ## When should you use `TestNode`?
///
/// You should not use `TestNode` for anything, except may be to get to know
/// what a binary tree is!
#[derive(Debug)]
pub struct TestNode<T> {
    pub val: T,
    pub left: Option<Box<TestNode<T>>>,
    pub right: Option<Box<TestNode<T>>>,
}

impl<T> TestNode<T> {
    /// Mathematical model of this subtree.
    pub open spec fn tree_model(self) -> GTree<T>
        decreases self,
    {
        GTree::Branch {
            left: Box::new(Self::opt_model(self.left)),
            val: self.val,
            right: Box::new(Self::opt_model(self.right)),
        }
    }

    /// Mathematical model of an optional subtree.
    pub open spec fn opt_model(o: Option<Box<TestNode<T>>>) -> GTree<T>
        decreases o,
    {
        match o {
            None => GTree::Tip,
            Some(n) => n.tree_model(),
        }
    }

    /// Returns a childless node wrapping `val`.
    pub fn new(val: T) -> (r: TestNode<T>)
        ensures
            r.val == val,
            r.left is None,
            r.right is None,
    {
        TestNode { val, left: None, right: None }
    }

    /// Replace the left subtree with `st` and return the old one.
    pub fn insert_left(&mut self, st: Option<Box<TestNode<T>>>) -> (r: Option<Box<TestNode<T>>>)
        ensures
            r == old(self).left,
            final(self).left == st,
            final(self).right == old(self).right,
            final(self).val == old(self).val,
    {
        let mut st = st;
        core::mem::swap(&mut self.left, &mut st);
        st
    }

    /// Replace the right subtree with `st` and return the old one.
    pub fn insert_right(&mut self, st: Option<Box<TestNode<T>>>) -> (r: Option<
        Box<TestNode<T>>,
    >)
        ensures
            r == old(self).right,
            final(self).right == st,
            final(self).left == old(self).left,
            final(self).val == old(self).val,
    {
        let mut st = st;
        core::mem::swap(&mut self.right, &mut st);
        st
    }

    /// Try to rotate the tree left if the right subtree exists.
    pub fn rotate_left(&mut self) -> (r: Result<(), ()>)
        ensures
            r is Err <==> old(self).right is None,
            r is Err ==> *final(self) == *old(self),
            r is Ok ==> ({
                let rt = old(self).right.unwrap();
                &&& final(self).val == rt.val
                &&& final(self).right == rt.right
                &&& final(self).left matches Some(nl) && nl.val == old(self).val
                    && nl.left == old(self).left && nl.right == rt.left
            }),
    {
        match self.right.take() {
            None => Err(()),
            Some(mut r) => {
                let mid = r.left.take();
                self.right = mid;
                core::mem::swap(&mut *r, self);
                self.left = Some(r);
                Ok(())
            },
        }
    }

    /// Try to rotate the tree right if the left subtree exists.
    pub fn rotate_right(&mut self) -> (r: Result<(), ()>)
        ensures
            r is Err <==> old(self).left is None,
            r is Err ==> *final(self) == *old(self),
            r is Ok ==> ({
                let lt = old(self).left.unwrap();
                &&& final(self).val == lt.val
                &&& final(self).left == lt.left
                &&& final(self).right matches Some(nr) && nr.val == old(self).val
                    && nr.right == old(self).right && nr.left == lt.right
            }),
    {
        match self.left.take() {
            None => Err(()),
            Some(mut l) => {
                let mid = l.right.take();
                self.left = mid;
                core::mem::swap(&mut *l, self);
                self.right = Some(l);
                Ok(())
            },
        }
    }

    /// Remove the rightmost node of the subtree in `node` and return it,
    /// childless. Returns `None` exactly when the subtree root itself is
    /// the rightmost node and has no child to promote into its place (the
    /// tree is then left unchanged).
    fn take_rightmost(node: &mut Box<TestNode<T>>) -> (r: Option<Box<TestNode<T>>>)
        ensures
            r matches Some(d) ==> d.left is None && d.right is None && gseq(
                final(node).tree_model(),
            ) == gseq(old(node).tree_model()).drop_last() && d.val == gseq(
                old(node).tree_model(),
            ).last(),
            r is None ==> *final(node) == *old(node) && old(node).right is None && old(
                node,
            ).left is None,
        decreases gsize(old(node).tree_model()),
    {
        let ghost m0 = node.tree_model();
        if node.right.is_some() {
            let mut rc = match node.right.take() {
                Some(rc) => rc,
                None => vstd::pervasive::unreached(),
            };
            let inner = Self::take_rightmost(&mut rc);
            match inner {
                Some(d) => {
                    node.right = Some(rc);
                    proof {
                        assert(gseq(GTree::<T>::Tip) == Seq::<T>::empty());
                        assert(gseq(node.tree_model()) =~= gseq(m0).drop_last());
                        assert(gseq(m0).last() == gseq(Self::opt_model(old(node).right)).last());
                    }
                    Some(d)
                },
                None => {
                    // `rc` is the rightmost node; promote its left child
                    node.right = rc.left.take();
                    proof {
                        assert(gseq(GTree::<T>::Tip) == Seq::<T>::empty());
                        assert(gseq(rc.tree_model()) =~= seq![rc.val]);
                        assert(gseq(node.tree_model()) =~= gseq(m0).drop_last());
                        assert(gseq(m0).last() == rc.val);
                    }
                    Some(rc)
                },
            }
        } else {
            match node.left.take() {
                Some(mut l) => {
                    core::mem::swap(&mut *l, &mut **node);
                    proof {
                        assert(gseq(GTree::<T>::Tip) == Seq::<T>::empty());
                        assert(gseq(l.tree_model()) =~= seq![l.val]);
                        assert(gseq(node.tree_model()) =~= gseq(m0).drop_last());
                        assert(gseq(m0).last() == l.val);
                    }
                    Some(l)
                },
                None => None,
            }
        }
    }

    /// Replace this node with one of its descendants: the rightmost node of
    /// the left subtree (the in-order predecessor) when a left subtree
    /// exists, else the right child. Returns the detached former occupant,
    /// now childless, or `None` if the node had no children at all.
    pub fn try_remove(&mut self) -> (r: Option<Box<TestNode<T>>>)
        ensures
            old(self).left is None && old(self).right is None ==> r is None && *final(self)
                == *old(self),
            !(old(self).left is None && old(self).right is None) ==> (r matches Some(d)
                && d.left is None && d.right is None && d.val == old(self).val && gseq(
                final(self).tree_model(),
            ) == gseq(Self::opt_model(old(self).left)) + gseq(Self::opt_model(old(self).right))),
    {
        let ghost o = *old(self);
        let left = self.left.take();
        let right = self.right.take();
        match (left, right) {
            (Some(mut l), Some(rt)) => {
                let ghost lm = l.tree_model();
                let inner = Self::take_rightmost(&mut l);
                let mut pio = match inner {
                    Some(mut d) => {
                        d.left = Some(l);
                        proof {
                            assert(gseq(GTree::<T>::Tip) == Seq::<T>::empty());
                            assert(gseq(lm) =~= gseq(lm).drop_last() + seq![gseq(lm).last()]);
                            assert(gseq(d.tree_model()) =~= gseq(lm));
                        }
                        d
                    },
                    None => l,
                };
                proof {
                    assert(gseq(pio.tree_model()) == gseq(lm));
                    assert(pio.right is None);
                }
                pio.right = Some(rt);
                proof {
                    assert(gseq(GTree::<T>::Tip) == Seq::<T>::empty());
                    assert(gseq(pio.tree_model()) =~= gseq(lm) + gseq(Self::opt_model(o.right)));
                }
                core::mem::swap(&mut *pio, self);
                proof {
                    assert(gseq(self.tree_model()) =~= gseq(Self::opt_model(o.left)) + gseq(
                        Self::opt_model(o.right),
                    ));
                }
                Some(pio)
            },
            (Some(mut l), None) => {
                core::mem::swap(&mut *l, self);
                proof {
                    assert(gseq(GTree::<T>::Tip) == Seq::<T>::empty());
                    assert(gseq(self.tree_model()) =~= gseq(Self::opt_model(o.left)) + gseq(
                        Self::opt_model(o.right),
                    ));
                }
                Some(l)
            },
            (None, Some(mut rt)) => {
                core::mem::swap(&mut *rt, self);
                proof {
                    assert(gseq(GTree::<T>::Tip) == Seq::<T>::empty());
                    assert(gseq(self.tree_model()) =~= gseq(Self::opt_model(o.left)) + gseq(
                        Self::opt_model(o.right),
                    ));
                }
                Some(rt)
            },
            (None, None) => None,
        }
    }
}

impl<T> crate::Node for TestNode<T> {
    type Value = T;

    open spec fn model(&self) -> GTree<T> {
        self.tree_model()
    }

    open spec fn inv(&self) -> bool {
        true
    }

    proof fn lemma_model_branch(&self) {
    }

    fn left(&self) -> (r: Option<&Self>) {
        match &self.left {
            None => None,
            Some(b) => Some(&**b),
        }
    }

    fn right(&self) -> (r: Option<&Self>) {
        match &self.right {
            None => None,
            Some(b) => Some(&**b),
        }
    }

    fn value(&self) -> (r: &T) {
        &self.val
    }
}

impl<T> crate::NodeMut for TestNode<T> {
    fn detach_left(&mut self) -> (r: Option<Box<Self>>) {
        self.left.take()
    }

    fn detach_right(&mut self) -> (r: Option<Box<Self>>) {
        self.right.take()
    }

    fn value_owned(self) -> (v: T) {
        self.val
    }
}

} // verus!
