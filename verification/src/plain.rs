//! Simple binary tree.
//!
//! ## When should you use `PlainTree`?
//!
//! You should not use `PlainTree` for anything, except may be to get to know
//! what a binary tree is!

use crate::GTree;
use vstd::prelude::*;

verus! {

/// A binary tree node with no bookkeeping at all: a value and two optional
/// subtrees.
#[derive(Debug)]
pub struct PlainTree<T> {
    pub val: T,
    pub left: Option<Box<PlainTree<T>>>,
    pub right: Option<Box<PlainTree<T>>>,
}

impl<T> PlainTree<T> {
    /// Mathematical model of this subtree.
    pub open spec fn tree_model(self) -> GTree<T>
        decreases self,
    {
        GTree::Branch {
            left: Box::new(Self::opt_model(self.left)),
            val: self.val,
            right: Box::new(Self::opt_model(self.right)),
        }
    }

    /// Mathematical model of an optional subtree.
    pub open spec fn opt_model(o: Option<Box<PlainTree<T>>>) -> GTree<T>
        decreases o,
    {
        match o {
            None => GTree::Tip,
            Some(n) => n.tree_model(),
        }
    }

    /// Returns a childless node wrapping `val`.
    pub fn new(val: T) -> (r: PlainTree<T>)
        ensures
            r.val == val,
            r.left is None,
            r.right is None,
    {
        PlainTree { val, left: None, right: None }
    }

    /// Remove and return the left subtree.
    pub fn detach_left(&mut self) -> (r: Option<Box<PlainTree<T>>>)
        ensures
            r == old(self).left,
            final(self).left is None,
            final(self).right == old(self).right,
            final(self).val == old(self).val,
    {
        self.left.take()
    }

    /// Remove and return the right subtree.
    pub fn detach_right(&mut self) -> (r: Option<Box<PlainTree<T>>>)
        ensures
            r == old(self).right,
            final(self).right is None,
            final(self).left == old(self).left,
            final(self).val == old(self).val,
    {
        self.right.take()
    }

    /// Replace the left subtree with `st` and return the old one.
    pub fn insert_left(&mut self, st: Option<Box<PlainTree<T>>>) -> (r: Option<
        Box<PlainTree<T>>,
    >)
        ensures
            r == old(self).left,
            final(self).left == st,
            final(self).right == old(self).right,
            final(self).val == old(self).val,
    {
        let mut st = st;
        core::mem::swap(&mut self.left, &mut st);
        st
    }

    /// Replace the right subtree with `st` and return the old one.
    pub fn insert_right(&mut self, st: Option<Box<PlainTree<T>>>) -> (r: Option<
        Box<PlainTree<T>>,
    >)
        ensures
            r == old(self).right,
            final(self).right == st,
            final(self).left == old(self).left,
            final(self).val == old(self).val,
    {
        let mut st = st;
        core::mem::swap(&mut self.right, &mut st);
        st
    }

    /// Consume the node and return its value.
    pub fn value_owned(self) -> (r: T)
        ensures
            r == self.val,
    {
        self.val
    }

    /// Try to rotate the tree left if the right subtree exists.
    pub fn rotate_left(&mut self) -> (r: Result<(), ()>)
        ensures
            r is Err <==> old(self).right is None,
            r is Err ==> *final(self) == *old(self),
            r is Ok ==> ({
                let rt = old(self).right.unwrap();
                &&& final(self).val == rt.val
                &&& final(self).right == rt.right
                &&& final(self).left matches Some(nl) && nl.val == old(self).val
                    && nl.left == old(self).left && nl.right == rt.left
            }),
    {
        match self.right.take() {
            None => Err(()),
            Some(mut r) => {
                let mid = r.left.take();
                self.right = mid;
                core::mem::swap(&mut *r, self);
                self.left = Some(r);
                Ok(())
            },
        }
    }

    /// Try to rotate the tree right if the left subtree exists.
    pub fn rotate_right(&mut self) -> (r: Result<(), ()>)
        ensures
            r is Err <==> old(self).left is None,
            r is Err ==> *final(self) == *old(self),
            r is Ok ==> ({
                let lt = old(self).left.unwrap();
                &&& final(self).val == lt.val
                &&& final(self).left == lt.left
                &&& final(self).right matches Some(nr) && nr.val == old(self).val
                    && nr.right == old(self).right && nr.left == lt.right
            }),
    {
        match self.left.take() {
            None => Err(()),
            Some(mut l) => {
                let mid = l.right.take();
                self.left = mid;
                core::mem::swap(&mut *l, self);
                self.right = Some(l);
                Ok(())
            },
        }
    }
}

impl<T> crate::Node for PlainTree<T> {
    type Value = T;

    open spec fn model(&self) -> GTree<T> {
        self.tree_model()
    }

    open spec fn inv(&self) -> bool {
        true
    }

    proof fn lemma_model_branch(&self) {
    }

    fn left(&self) -> (r: Option<&Self>) {
        match &self.left {
            None => None,
            Some(b) => Some(&**b),
        }
    }

    fn right(&self) -> (r: Option<&Self>) {
        match &self.right {
            None => None,
            Some(b) => Some(&**b),
        }
    }

    fn value(&self) -> (r: &T) {
        &self.val
    }
}

impl<T> crate::NodeMut for PlainTree<T> {
    fn detach_left(&mut self) -> (r: Option<Box<Self>>) {
        PlainTree::detach_left(self)
    }

    fn detach_right(&mut self) -> (r: Option<Box<Self>>) {
        PlainTree::detach_right(self)
    }

    fn value_owned(self) -> (v: T) {
        self.val
    }
}

impl<T> crate::BinaryTree for PlainTree<T> {
    type Node = PlainTree<T>;

    open spec fn root_spec(&self) -> Option<PlainTree<T>> {
        Some(*self)
    }

    fn root(&self) -> (r: Option<&PlainTree<T>>) {
        Some(self)
    }
}

} // verus!
