//! Binary tree based data structures and algorithms.
//!
//! ## Terminology
//!
//! * The root of a tree is considered to be at the top.
//! * Height of a node is the length of the longest path to _its_ leaves. Thus
//!   all leaf nodes have zero height.

use vstd::prelude::*;

pub mod count;
pub mod cow;
pub mod iter;
pub mod plain;
pub mod test;
pub mod unbox;

verus! {

/// Mathematical model of a binary tree: the shape of a subtree together with
/// the values stored in it, used by the specifications of every tree type in
/// this crate.
pub enum GTree<V> {
    /// An empty subtree.
    Tip,
    /// A node holding a value between its two subtrees.
    Branch { left: Box<GTree<V>>, val: V, right: Box<GTree<V>> },
}

/// In-order sequence of the values of a model tree.
pub open spec fn gseq<V>(t: GTree<V>) -> Seq<V>
    decreases t,
{
    match t {
        GTree::Tip => Seq::empty(),
        GTree::Branch { left, val, right } => gseq(*left) + seq![val] + gseq(*right),
    }
}

/// Height of a model tree, where the empty tree has height -1 and a lone node
/// has height 0.
pub open spec fn ghgt<V>(t: GTree<V>) -> int
    decreases t,
{
    match t {
        GTree::Tip => -1,
        GTree::Branch { left, val, right } => 1 + if ghgt(*left) >= ghgt(*right) {
            ghgt(*left)
        } else {
            ghgt(*right)
        },
    }
}

/// The shape of a model tree: the same tree with the values blanked out.
pub open spec fn gshape<V>(t: GTree<V>) -> GTree<()>
    decreases t,
{
    match t {
        GTree::Tip => GTree::Tip,
        GTree::Branch { left, val, right } => GTree::Branch {
            left: Box::new(gshape(*left)),
            val: (),
            right: Box::new(gshape(*right)),
        },
    }
}

/// Number of values in a model tree.
pub open spec fn gsize<V>(t: GTree<V>) -> nat
    decreases t,
{
    match t {
        GTree::Tip => 0,
        GTree::Branch { left, val, right } => 1 + gsize(*left) + gsize(*right),
    }
}

/// Left subtree of a model tree; the empty tree for `Tip`.
pub open spec fn gleft<V>(t: GTree<V>) -> GTree<V> {
    match t {
        GTree::Tip => GTree::Tip,
        GTree::Branch { left, val, right } => *left,
    }
}

/// Right subtree of a model tree; the empty tree for `Tip`.
pub open spec fn gright<V>(t: GTree<V>) -> GTree<V> {
    match t {
        GTree::Tip => GTree::Tip,
        GTree::Branch { left, val, right } => *right,
    }
}

/// Value at the root of a model tree (meaningful only for a `Branch`).
pub open spec fn gval<V>(t: GTree<V>) -> V {
    t->val
}

/// Generic read access to a binary tree node.
///
/// Each node type explains itself through `model`, the mathematical tree it
/// stands for, and `inv`, the invariant its subtrees maintain; the accessor
/// methods promise to agree with that model. Generic traversals are written
/// and verified once against these contracts.
pub trait Node: Sized {
    type Value;

    /// Mathematical model of the subtree rooted at this node.
    spec fn model(&self) -> GTree<Self::Value>;

    /// Invariant that this node type maintains on every subtree.
    spec fn inv(&self) -> bool;

    /// A node always models a nonempty tree.
    proof fn lemma_model_branch(&self)
        ensures
            self.model() is Branch,
    ;

    /// Get a reference to the left subtree.
    fn left(&self) -> (r: Option<&Self>)
        ensures
            match r {
                Some(l) => gleft(self.model()) == l.model() && (self.inv() ==> l.inv()),
                None => gleft(self.model()) is Tip,
            },
    ;

    /// Get a reference to the right subtree.
    fn right(&self) -> (r: Option<&Self>)
        ensures
            match r {
                Some(l) => gright(self.model()) == l.model() && (self.inv() ==> l.inv()),
                None => gright(self.model()) is Tip,
            },
    ;

    /// Returns the value of the current node.
    fn value(&self) -> (r: &Self::Value)
        ensures
            *r == gval(self.model()),
    ;
}

/// Mutating access to a binary tree node, for tree types that own their
/// subtrees through boxes.
pub trait NodeMut: Node {
    /// Try to detach the left subtree.
    fn detach_left(&mut self) -> (r: Option<Box<Self>>)
        requires
            old(self).inv(),
        ensures
            final(self).inv(),
            final(self).model() is Branch,
            gleft(final(self).model()) is Tip,
            gval(final(self).model()) == gval(old(self).model()),
            gright(final(self).model()) == gright(old(self).model()),
            match r {
                Some(d) => d.inv() && d.model() == gleft(old(self).model()),
                None => gleft(old(self).model()) is Tip,
            },
    ;

    /// Try to detach the right subtree.
    fn detach_right(&mut self) -> (r: Option<Box<Self>>)
        requires
            old(self).inv(),
        ensures
            final(self).inv(),
            final(self).model() is Branch,
            gright(final(self).model()) is Tip,
            gval(final(self).model()) == gval(old(self).model()),
            gleft(final(self).model()) == gleft(old(self).model()),
            match r {
                Some(d) => d.inv() && d.model() == gright(old(self).model()),
                None => gright(old(self).model()) is Tip,
            },
    ;

    /// Consume the node and return the value it held.
    fn value_owned(self) -> (v: Self::Value)
        ensures
            v == gval(self.model()),
    ;
}

/// A tree with a root.
pub trait BinaryTree {
    type Node: Node;

    /// The root node, as a specification-level value.
    spec fn root_spec(&self) -> Option<Self::Node>;

    /// Get a reference to the root node, if any.
    fn root(&self) -> (r: Option<&Self::Node>)
        ensures
            match r {
                Some(n) => self.root_spec() == Some(*n) && n.inv(),
                None => self.root_spec() is None,
            },
    ;
}

#[derive(Clone, Copy, PartialEq, Eq, Structural)]
/// Direction taken by one step of a walk down a binary tree.
pub enum WalkAction {
    /// Enter(ed) the left child
    Left,
    /// Enter(ed) the right child
    Right,
    /// Stop walking
    Stop,
}

} // verus!
