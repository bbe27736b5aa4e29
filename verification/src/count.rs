//! Counting tree implementation.
//!
//! ## When should you use `CountTree`?
//!
//! - You want to maintain a possibly large unsorted list.
//! - You want to access, modify, insert, and delete elements at arbitrary
//!   position with O(log(n)) time complexity.
//! - You have less than 4.29 billion (`u32::MAX`) elements!
//!
//! The sequence that a tree holds is the object of every contract here: a
//! `CountTree<T>` is viewed as a `Seq<T>`, and each operation states how it
//! changes that sequence.
//!
//! Every positional operation walks root-to-target along the index-guided
//! direction rule (compare the position against each node's left-subtree
//! size), then restores cached statistics and AVL balance on the way back
//! up. The walk is structural recursion; its depth equals the tree height,
//! which the balance invariant caps at 63 for any 32-bit-sized tree (see
//! `CountTree::observe_height_log_bound`), so it cannot outgrow the call
//! stack. Bulk teardown, which must also cope with unbalanced interim
//! shapes, goes through the explicit-stack iterators of [`crate::iter`]
//! instead.

use vstd::arithmetic::power2::is_pow2;
use vstd::arithmetic::power2::pow2;
use vstd::prelude::*;

verus! {

/// Node of a `CountTree`.
///
/// Holds one value, the optional left and right subtrees, and two cached
/// aggregate statistics: `count`, the number of nodes in the subtree rooted
/// here (including this one), and `height`, the length of the longest path
/// from here down to a leaf.
#[derive(Debug)]
pub struct CountNode<T> {
    val: T,
    left: Option<Box<CountNode<T>>>,
    right: Option<Box<CountNode<T>>>,
    count: u32,
    height: u16,
}

impl<T> CountNode<T> {
    /// In-order sequence of the values in this subtree.
    pub closed spec fn subtree_seq(self) -> Seq<T>
        decreases self,
    {
        Self::opt_seq(self.left) + seq![self.val] + Self::opt_seq(self.right)
    }

    /// In-order sequence of an optional subtree.
    pub closed spec fn opt_seq(o: Option<Box<CountNode<T>>>) -> Seq<T>
        decreases o,
    {
        match o {
            None => Seq::empty(),
            Some(n) => n.subtree_seq(),
        }
    }

    /// Height of this subtree: 0 for a childless node.
    pub closed spec fn hgt(self) -> int
        decreases self,
    {
        1 + if Self::opt_hgt(self.left) >= Self::opt_hgt(self.right) {
            Self::opt_hgt(self.left)
        } else {
            Self::opt_hgt(self.right)
        }
    }

    /// Height of an optional subtree: an absent subtree counts as -1.
    pub closed spec fn opt_hgt(o: Option<Box<CountNode<T>>>) -> int
        decreases o,
    {
        match o {
            None => -1,
            Some(n) => n.hgt(),
        }
    }

    /// Number of values in an optional subtree.
    pub open spec fn opt_len(o: Option<Box<CountNode<T>>>) -> int {
        Self::opt_seq(o).len() as int
    }

    /// The cached statistics of every node in this subtree match their
    /// recursive definitions.
    pub closed spec fn stats_ok(self) -> bool
        decreases self,
    {
        &&& Self::opt_stats_ok(self.left)
        &&& Self::opt_stats_ok(self.right)
        &&& self.count as int == self.subtree_seq().len()
        &&& self.height as int == self.hgt()
    }

    /// `stats_ok` for an optional subtree.
    pub closed spec fn opt_stats_ok(o: Option<Box<CountNode<T>>>) -> bool
        decreases o,
    {
        match o {
            None => true,
            Some(n) => n.stats_ok(),
        }
    }

    /// Balance factor of this node: height of the left subtree minus height
    /// of the right one, where an absent subtree counts as -1.
    pub closed spec fn bal_spec(self) -> int {
        Self::opt_hgt(self.left) - Self::opt_hgt(self.right)
    }

    /// Every node of this subtree has a balance factor in [-1, 1].
    pub closed spec fn balanced(self) -> bool
        decreases self,
    {
        &&& Self::opt_balanced(self.left)
        &&& Self::opt_balanced(self.right)
        &&& -1 <= self.bal_spec() <= 1
    }

    /// `balanced` for an optional subtree.
    pub closed spec fn opt_balanced(o: Option<Box<CountNode<T>>>) -> bool
        decreases o,
    {
        match o {
            None => true,
            Some(n) => n.balanced(),
        }
    }

    /// The cached element count of this node.
    pub closed spec fn count_spec(self) -> u32 {
        self.count
    }

    /// The cached height of this node.
    pub closed spec fn height_spec(self) -> u16 {
        self.height
    }

    /// The value stored in this node.
    pub closed spec fn value_spec(self) -> T {
        self.val
    }

    /// The left subtree of this node.
    pub closed spec fn left_spec(self) -> Option<Box<CountNode<T>>> {
        self.left
    }

    /// The right subtree of this node.
    pub closed spec fn right_spec(self) -> Option<Box<CountNode<T>>> {
        self.right
    }

    /// Returns a node wrapping `val`, with no children.
    pub fn new(val: T) -> (r: CountNode<T>)
        ensures
            r.subtree_seq() =~= seq![val],
            r.stats_ok(),
            r.balanced(),
            r.hgt() == 0,
            r.value_spec() == val,
            r.left_spec() is None,
            r.right_spec() is None,
    {
        CountNode { val, left: None, right: None, count: 1, height: 0 }
    }

    /// Recompute this node's cached `count` and `height` from its children.
    pub fn update_stats(&mut self)
        requires
            Self::opt_stats_ok(old(self).left_spec()),
            Self::opt_stats_ok(old(self).right_spec()),
            1 + Self::opt_len(old(self).left_spec()) + Self::opt_len(old(self).right_spec())
                <= u32::MAX,
            Self::opt_hgt(old(self).left_spec()) < u16::MAX,
            Self::opt_hgt(old(self).right_spec()) < u16::MAX,
        ensures
            final(self).value_spec() == old(self).value_spec(),
            final(self).left_spec() == old(self).left_spec(),
            final(self).right_spec() == old(self).right_spec(),
            final(self).stats_ok(),
    {
        let lc: u32 = match &self.left {
            None => 0,
            Some(n) => n.count,
        };
        let rc: u32 = match &self.right {
            None => 0,
            Some(n) => n.count,
        };
        self.count = lc + rc + 1;
        let lh: u16 = match &self.left {
            None => 0,
            Some(n) => n.height,
        };
        let rh: u16 = match &self.right {
            None => 0,
            Some(n) => n.height,
        };
        let mut h: u16 = if lh >= rh {
            lh
        } else {
            rh
        };
        if self.count > 1 {
            h = h + 1;
        }
        self.height = h;
    }

    /// Number of nodes in the left subtree.
    pub fn lcount(&self) -> (r: u32)
        requires
            self.stats_ok(),
        ensures
            r as int == Self::opt_len(self.left_spec()),
    {
        match &self.left {
            None => 0,
            Some(n) => {
                proof {
                    assert(self.left_spec() matches Some(b) && b == n);
                    assert(n.stats_ok());
                    assert(Self::opt_seq(self.left_spec()) == n.subtree_seq());
                }
                n.count
            },
        }
    }

    /// Number of nodes in the right subtree.
    pub fn rcount(&self) -> (r: u32)
        requires
            self.stats_ok(),
        ensures
            r as int == Self::opt_len(self.right_spec()),
    {
        match &self.right {
            None => 0,
            Some(n) => {
                proof {
                    assert(n.stats_ok());
                    assert(Self::opt_seq(self.right_spec()) == n.subtree_seq());
                }
                n.count
            },
        }
    }

    /// The cached number of nodes in this subtree.
    pub fn count(&self) -> (r: u32)
        ensures
            r == self.count_spec(),
            self.stats_ok() ==> r as int == self.subtree_seq().len(),
    {
        self.count
    }

    /// The cached height of this subtree.
    pub fn height(&self) -> (r: u16)
        ensures
            r == self.height_spec(),
            self.stats_ok() ==> r as int == self.hgt(),
    {
        self.height
    }

    /// Generalized AVL balance factor of this node: h(left) - h(right).
    pub fn balance_factor(&self) -> (r: i32)
        requires
            self.stats_ok(),
        ensures
            r as int == self.bal_spec(),
    {
        let lh: i32 = match &self.left {
            None => -1,
            Some(n) => {
                proof {
                    assert(n.stats_ok());
                    assert(Self::opt_hgt(self.left_spec()) == n.hgt());
                }
                n.height as i32
            },
        };
        let rh: i32 = match &self.right {
            None => -1,
            Some(n) => {
                proof {
                    assert(n.stats_ok());
                    assert(Self::opt_hgt(self.right_spec()) == n.hgt());
                }
                n.height as i32
            },
        };
        lh - rh
    }

    /// Try to detach the left subtree; recomputes this node's statistics.
    pub fn detach_left(&mut self) -> (r: Option<Box<CountNode<T>>>)
        requires
            old(self).stats_ok(),
        ensures
            r == old(self).left_spec(),
            final(self).left_spec() is None,
            final(self).right_spec() == old(self).right_spec(),
            final(self).value_spec() == old(self).value_spec(),
            final(self).stats_ok(),
    {
        proof {
            self.lemma_child_bounds();
        }
        let t = self.left.take();
        self.update_stats();
        t
    }

    /// Try to detach the right subtree; recomputes this node's statistics.
    pub fn detach_right(&mut self) -> (r: Option<Box<CountNode<T>>>)
        requires
            old(self).stats_ok(),
        ensures
            r == old(self).right_spec(),
            final(self).right_spec() is None,
            final(self).left_spec() == old(self).left_spec(),
            final(self).value_spec() == old(self).value_spec(),
            final(self).stats_ok(),
    {
        proof {
            self.lemma_child_bounds();
        }
        let t = self.right.take();
        self.update_stats();
        t
    }

    /// Replace the left subtree with `tree` and return the old one;
    /// recomputes this node's statistics.
    pub fn insert_left(&mut self, tree: Option<Box<CountNode<T>>>) -> (r: Option<
        Box<CountNode<T>>,
    >)
        requires
            old(self).stats_ok(),
            Self::opt_stats_ok(tree),
            1 + Self::opt_len(tree) + Self::opt_len(old(self).right_spec()) <= u32::MAX,
            Self::opt_hgt(tree) < u16::MAX,
        ensures
            r == old(self).left_spec(),
            final(self).left_spec() == tree,
            final(self).right_spec() == old(self).right_spec(),
            final(self).value_spec() == old(self).value_spec(),
            final(self).stats_ok(),
    {
        proof {
            self.lemma_child_bounds();
        }
        let mut t = tree;
        core::mem::swap(&mut self.left, &mut t);
        self.update_stats();
        t
    }

    /// Replace the right subtree with `tree` and return the old one;
    /// recomputes this node's statistics.
    pub fn insert_right(&mut self, tree: Option<Box<CountNode<T>>>) -> (r: Option<
        Box<CountNode<T>>,
    >)
        requires
            old(self).stats_ok(),
            Self::opt_stats_ok(tree),
            1 + Self::opt_len(old(self).left_spec()) + Self::opt_len(tree) <= u32::MAX,
            Self::opt_hgt(tree) < u16::MAX,
        ensures
            r == old(self).right_spec(),
            final(self).right_spec() == tree,
            final(self).left_spec() == old(self).left_spec(),
            final(self).value_spec() == old(self).value_spec(),
            final(self).stats_ok(),
    {
        proof {
            self.lemma_child_bounds();
        }
        let mut t = tree;
        core::mem::swap(&mut self.right, &mut t);
        self.update_stats();
        t
    }

    /// Returns the value of the current node.
    pub fn value(&self) -> (r: &T)
        ensures
            *r == self.value_spec(),
    {
        &self.val
    }

    /// Returns a mutable reference to the value of the current node.
    pub fn value_mut(&mut self) -> (r: &mut T)
        ensures
            *r == old(self).value_spec(),
            final(self).value_spec() == *final(r),
            final(self).left_spec() == old(self).left_spec(),
            final(self).right_spec() == old(self).right_spec(),
            final(self).count_spec() == old(self).count_spec(),
            final(self).height_spec() == old(self).height_spec(),
    {
        &mut self.val
    }

    /// Consume a childless node and return the value it held.
    pub fn into_value(self) -> (r: T)
        requires
            self.count_spec() == 1,
        ensures
            r == self.value_spec(),
    {
        self.val
    }

    /// Consume a node and return its parts: (value, left, right).
    pub fn into_parts(self) -> (r: (T, Option<Box<CountNode<T>>>, Option<Box<CountNode<T>>>))
        ensures
            r.0 == self.value_spec(),
            r.1 == self.left_spec(),
            r.2 == self.right_spec(),
    {
        (self.val, self.left, self.right)
    }

    /// Try to rotate the tree right if the left subtree exists.
    ///
    /// Standard single right rotation: the left child becomes the new subtree
    /// root, its former right child becomes the old root's new left child,
    /// and the old root becomes the new root's right child. Returns `Err(())`
    /// and leaves the node unchanged when there is no left child.
    pub fn rotate_right(&mut self) -> (r: Result<(), ()>)
        requires
            old(self).stats_ok(),
            old(self).hgt() < u16::MAX,
        ensures
            final(self).stats_ok(),
            final(self).subtree_seq() == old(self).subtree_seq(),
            r is Err <==> old(self).left_spec() is None,
            r is Err ==> *final(self) == *old(self),
            r is Ok ==> ({
                let l = old(self).left_spec().unwrap();
                &&& final(self).value_spec() == l.value_spec()
                &&& final(self).left_spec() == l.left_spec()
                &&& final(self).right_spec() matches Some(nr) && nr.value_spec() == old(
                    self,
                ).value_spec() && nr.left_spec() == l.right_spec() && nr.right_spec() == old(
                    self,
                ).right_spec() && nr.stats_ok()
            }),
    {
        let ghost o = *old(self);
        match self.detach_left() {
            None => {
                proof {
                    assert(self.subtree_seq() == o.subtree_seq());
                    assert(self.count_spec() == o.count_spec()) by {
                        assert(self.count_spec() as int == self.subtree_seq().len());
                    }
                    assert(self.height_spec() == o.height_spec()) by {
                        assert(self.hgt() == o.hgt());
                    }
                    assert(*self == o);
                }
                Err(())
            },
            Some(mut l) => {
                proof {
                    l.lemma_child_bounds();
                    o.lemma_child_bounds();
                }
                let mid = l.detach_right();
                self.insert_left(mid);
                core::mem::swap(&mut *l, self);
                self.insert_right(Some(l));
                proof {
                    let l0 = o.left_spec().unwrap();
                    let nr = self.right_spec().unwrap();
                    assert(nr.subtree_seq() == Self::opt_seq(l0.right_spec()) + seq![
                        o.value_spec(),
                    ] + Self::opt_seq(o.right_spec()));
                    assert(self.subtree_seq() =~= o.subtree_seq());
                }
                Ok(())
            },
        }
    }

    /// Try to rotate the tree left if the right subtree exists.
    ///
    /// Mirror image of `rotate_right`.
    pub fn rotate_left(&mut self) -> (r: Result<(), ()>)
        requires
            old(self).stats_ok(),
            old(self).hgt() < u16::MAX,
        ensures
            final(self).stats_ok(),
            final(self).subtree_seq() == old(self).subtree_seq(),
            r is Err <==> old(self).right_spec() is None,
            r is Err ==> *final(self) == *old(self),
            r is Ok ==> ({
                let l = old(self).right_spec().unwrap();
                &&& final(self).value_spec() == l.value_spec()
                &&& final(self).right_spec() == l.right_spec()
                &&& final(self).left_spec() matches Some(nl) && nl.value_spec() == old(
                    self,
                ).value_spec() && nl.right_spec() == l.left_spec() && nl.left_spec() == old(
                    self,
                ).left_spec() && nl.stats_ok()
            }),
    {
        let ghost o = *old(self);
        match self.detach_right() {
            None => {
                proof {
                    assert(self.subtree_seq() == o.subtree_seq());
                    assert(self.count_spec() == o.count_spec()) by {
                        assert(self.count_spec() as int == self.subtree_seq().len());
                    }
                    assert(self.height_spec() == o.height_spec()) by {
                        assert(self.hgt() == o.hgt());
                    }
                    assert(*self == o);
                }
                Err(())
            },
            Some(mut l) => {
                proof {
                    l.lemma_child_bounds();
                    o.lemma_child_bounds();
                }
                let mid = l.detach_left();
                self.insert_right(mid);
                core::mem::swap(&mut *l, self);
                self.insert_left(Some(l));
                proof {
                    let l0 = o.right_spec().unwrap();
                    let nl = self.left_spec().unwrap();
                    assert(nl.subtree_seq() == Self::opt_seq(o.left_spec()) + seq![
                        o.value_spec(),
                    ] + Self::opt_seq(l0.left_spec()));
                    assert(self.subtree_seq() =~= o.subtree_seq());
                }
                Ok(())
            },
        }
    }

    /// Classic AVL rebalance.
    ///
    /// If the balance factor is 2, conditionally rotate the left child left
    /// first (if that child itself leans right), then rotate this node right;
    /// symmetric when the balance factor is -2. No-op if the balance factor
    /// is already within [-1, 1].
    pub fn rebalance(&mut self)
        requires
            old(self).stats_ok(),
            Self::opt_balanced(old(self).left_spec()),
            Self::opt_balanced(old(self).right_spec()),
            -2 <= old(self).bal_spec() <= 2,
            old(self).hgt() < u16::MAX,
        ensures
            final(self).stats_ok(),
            final(self).balanced(),
            final(self).subtree_seq() == old(self).subtree_seq(),
            old(self).hgt() - 1 <= final(self).hgt() <= old(self).hgt(),
            -1 <= old(self).bal_spec() <= 1 ==> *final(self) == *old(self),
    {
        let ghost o = *old(self);
        proof {
            o.lemma_child_bounds();
        }
        let bf = self.balance_factor();
        if bf > 1 {
            let ghost l0 = o.left_spec().unwrap();
            let ghost lh = l0.hgt();
            proof {
                assert(o.bal_spec() == 2);
                assert(l0.stats_ok() && l0.balanced());
                assert(Self::opt_hgt(o.right_spec()) == lh - 2);
                assert(o.hgt() == lh + 1);
            }
            let mut l = self.detach_left().unwrap();
            let lbf = l.balance_factor();
            if lbf < 0 {
                proof {
                    assert(l0.bal_spec() == -1);
                    assert(Self::opt_hgt(l0.right_spec()) == lh - 1);
                    assert(Self::opt_hgt(l0.left_spec()) == lh - 2);
                }
                let res = l.rotate_left();
                proof {
                    assert(res is Ok);
                    let lr = l0.right_spec().unwrap();
                    assert(lr.stats_ok() && lr.balanced()) by {
                        assert(Self::opt_stats_ok(l0.right_spec()));
                        assert(Self::opt_balanced(l0.right_spec()));
                    }
                    assert(lr.hgt() == lh - 1);
                    let nl = l.left_spec().unwrap();
                    assert(nl.hgt() == lh - 1);
                    assert(nl.balanced());
                    assert(l.hgt() <= lh);
                }
            }
            self.insert_left(Some(l));
            let res2 = self.rotate_right();
            proof {
                assert(res2 is Ok);
                let nr = self.right_spec().unwrap();
                assert(nr.balanced());
                assert(self.balanced());
                assert(lh <= self.hgt() <= lh + 1);
            }
        } else if bf < -1 {
            let ghost r0 = o.right_spec().unwrap();
            let ghost rh = r0.hgt();
            proof {
                assert(o.bal_spec() == -2);
                assert(r0.stats_ok() && r0.balanced());
                assert(Self::opt_hgt(o.left_spec()) == rh - 2);
                assert(o.hgt() == rh + 1);
            }
            let mut r = self.detach_right().unwrap();
            let rbf = r.balance_factor();
            if rbf > 0 {
                proof {
                    assert(r0.bal_spec() == 1);
                    assert(Self::opt_hgt(r0.left_spec()) == rh - 1);
                    assert(Self::opt_hgt(r0.right_spec()) == rh - 2);
                }
                let res = r.rotate_right();
                proof {
                    assert(res is Ok);
                    let rl = r0.left_spec().unwrap();
                    assert(rl.stats_ok() && rl.balanced()) by {
                        assert(Self::opt_stats_ok(r0.left_spec()));
                        assert(Self::opt_balanced(r0.left_spec()));
                    }
                    assert(rl.hgt() == rh - 1);
                    let nr = r.right_spec().unwrap();
                    assert(nr.hgt() == rh - 1);
                    assert(nr.balanced());
                    assert(r.hgt() <= rh);
                }
            }
            self.insert_right(Some(r));
            let res2 = self.rotate_left();
            proof {
                assert(res2 is Ok);
                let nl = self.left_spec().unwrap();
                assert(nl.balanced());
                assert(self.balanced());
                assert(rh <= self.hgt() <= rh + 1);
            }
        }
    }

    /// The index-guided direction rule: compare a target in-order position
    /// against the size of the left subtree to decide where a positional
    /// walk goes next.
    fn index_walker(&self, index: usize) -> (r: crate::WalkAction)
        requires
            self.stats_ok(),
        ensures
            (r == crate::WalkAction::Left) == ((index as int) < Self::opt_len(
                self.left_spec(),
            )),
            (r == crate::WalkAction::Stop) == ((index as int) == Self::opt_len(
                self.left_spec(),
            )),
            (r == crate::WalkAction::Right) == ((index as int) > Self::opt_len(
                self.left_spec(),
            )),
    {
        let lc = self.lcount() as usize;
        if index < lc {
            crate::WalkAction::Left
        } else if index == lc {
            crate::WalkAction::Stop
        } else {
            crate::WalkAction::Right
        }
    }

    /// Read the value at in-order position `index` of this subtree.
    fn get_at(&self, index: usize) -> (r: &T)
        requires
            self.stats_ok(),
            index < self.subtree_seq().len(),
        ensures
            *r == self.subtree_seq()[index as int],
        decreases self.subtree_seq().len(),
    {
        proof {
            self.lemma_child_bounds();
        }
        let lc = self.lcount() as usize;
        match self.index_walker(index) {
            crate::WalkAction::Left => match &self.left {
                Some(l) => {
                    proof {
                        assert(l.stats_ok());
                        assert(self.subtree_seq()[index as int] == l.subtree_seq()[index as int]);
                    }
                    l.get_at(index)
                },
                None => vstd::pervasive::unreached(),
            },
            crate::WalkAction::Stop => &self.val,
            crate::WalkAction::Right => match &self.right {
                Some(r) => {
                    proof {
                        assert(r.stats_ok());
                        assert(self.subtree_seq()[index as int] == r.subtree_seq()[index - lc
                            - 1]);
                    }
                    r.get_at(index - lc - 1)
                },
                None => vstd::pervasive::unreached(),
            },
        }
    }

    /// Insert `value` at in-order position `index` of this subtree,
    /// rebalancing on the way back up.
    fn insert_at(&mut self, index: usize, value: T)
        requires
            old(self).stats_ok(),
            old(self).balanced(),
            index <= old(self).subtree_seq().len(),
            old(self).subtree_seq().len() + 1 <= u32::MAX,
            old(self).hgt() <= 64,
        ensures
            final(self).stats_ok(),
            final(self).balanced(),
            final(self).subtree_seq() == old(self).subtree_seq().insert(index as int, value),
            old(self).hgt() <= final(self).hgt() <= old(self).hgt() + 1,
        decreases old(self).subtree_seq().len(),
    {
        let ghost o = *old(self);
        proof {
            o.lemma_child_bounds();
        }
        let lc = self.lcount() as usize;
        if index <= lc {
            proof {
                assert(o.subtree_seq().insert(index as int, value) =~= Self::opt_seq(
                    o.left_spec(),
                ).insert(index as int, value) + seq![o.value_spec()] + Self::opt_seq(
                    o.right_spec(),
                ));
            }
            match self.detach_left() {
                None => {
                    let nn = Box::new(CountNode::new(value));
                    proof {
                        assert(Self::opt_seq(o.left_spec()).insert(0, value) =~= seq![value]);
                    }
                    self.insert_left(Some(nn));
                },
                Some(mut lb) => {
                    lb.insert_at(index, value);
                    self.insert_left(Some(lb));
                },
            }
            self.rebalance();
        } else {
            proof {
                assert(o.subtree_seq().insert(index as int, value) =~= Self::opt_seq(
                    o.left_spec(),
                ) + seq![o.value_spec()] + Self::opt_seq(o.right_spec()).insert(
                    index - lc - 1,
                    value,
                ));
            }
            match self.detach_right() {
                None => {
                    let nn = Box::new(CountNode::new(value));
                    proof {
                        assert(Self::opt_seq(o.right_spec()).insert(index - lc - 1, value)
                            =~= seq![value]);
                    }
                    self.insert_right(Some(nn));
                },
                Some(mut rb) => {
                    rb.insert_at(index - lc - 1, value);
                    self.insert_right(Some(rb));
                },
            }
            self.rebalance();
        }
    }

    /// Remove and return the last (rightmost) value of the subtree in
    /// `node`, rebalancing on the way back up.
    fn remove_rightmost(node: &mut Option<Box<CountNode<T>>>) -> (r: T)
        requires
            *old(node) is Some,
            Self::opt_stats_ok(*old(node)),
            Self::opt_balanced(*old(node)),
            Self::opt_hgt(*old(node)) <= 64,
        ensures
            Self::opt_stats_ok(*final(node)),
            Self::opt_balanced(*final(node)),
            Self::opt_seq(*final(node)) == Self::opt_seq(*old(node)).drop_last(),
            r == Self::opt_seq(*old(node)).last(),
            Self::opt_hgt(*old(node)) - 1 <= Self::opt_hgt(*final(node)) <= Self::opt_hgt(
                *old(node),
            ),
        decreases Self::opt_len(*old(node)),
    {
        let mut b = node.take().unwrap();
        let ghost o = *b;
        proof {
            o.lemma_child_bounds();
        }
        match b.detach_right() {
            None => {
                let l = b.detach_left();
                proof {
                    assert(o.subtree_seq().drop_last() =~= Self::opt_seq(o.left_spec()));
                    assert(o.subtree_seq().last() == o.value_spec());
                }
                *node = l;
                b.into_value()
            },
            Some(rb) => {
                let mut ropt = Some(rb);
                let v = Self::remove_rightmost(&mut ropt);
                b.insert_right(ropt);
                b.rebalance();
                proof {
                    assert(o.subtree_seq().drop_last() =~= Self::opt_seq(o.left_spec()) + seq![
                        o.value_spec(),
                    ] + Self::opt_seq(o.right_spec()).drop_last());
                    assert(o.subtree_seq().last() == Self::opt_seq(o.right_spec()).last());
                }
                *node = Some(b);
                v
            },
        }
    }

    /// Remove and return the first (leftmost) value of the subtree in
    /// `node`, rebalancing on the way back up.
    fn remove_leftmost(node: &mut Option<Box<CountNode<T>>>) -> (r: T)
        requires
            *old(node) is Some,
            Self::opt_stats_ok(*old(node)),
            Self::opt_balanced(*old(node)),
            Self::opt_hgt(*old(node)) <= 64,
        ensures
            Self::opt_stats_ok(*final(node)),
            Self::opt_balanced(*final(node)),
            Self::opt_seq(*final(node)) == Self::opt_seq(*old(node)).drop_first(),
            r == Self::opt_seq(*old(node)).first(),
            Self::opt_hgt(*old(node)) - 1 <= Self::opt_hgt(*final(node)) <= Self::opt_hgt(
                *old(node),
            ),
        decreases Self::opt_len(*old(node)),
    {
        let mut b = node.take().unwrap();
        let ghost o = *b;
        proof {
            o.lemma_child_bounds();
        }
        match b.detach_left() {
            None => {
                let r = b.detach_right();
                proof {
                    assert(o.subtree_seq().drop_first() =~= Self::opt_seq(o.right_spec()));
                    assert(o.subtree_seq().first() == o.value_spec());
                }
                *node = r;
                b.into_value()
            },
            Some(lb) => {
                let mut lopt = Some(lb);
                let v = Self::remove_leftmost(&mut lopt);
                b.insert_left(lopt);
                b.rebalance();
                proof {
                    assert(o.subtree_seq().drop_first() =~= Self::opt_seq(
                        o.left_spec(),
                    ).drop_first() + seq![o.value_spec()] + Self::opt_seq(o.right_spec()));
                    assert(o.subtree_seq().first() == Self::opt_seq(o.left_spec()).first());
                }
                *node = Some(b);
                v
            },
        }
    }

    /// Remove and return the value at in-order position `index` of the
    /// subtree in `node`, rebalancing on the way back up. When an interior
    /// node is removed, its in-order predecessor (the rightmost value of its
    /// left subtree) is promoted into its place.
    #[verifier::rlimit(60)]
    fn remove_at(node: &mut Option<Box<CountNode<T>>>, index: usize) -> (r: T)
        requires
            Self::opt_stats_ok(*old(node)),
            Self::opt_balanced(*old(node)),
            index < Self::opt_len(*old(node)),
            Self::opt_hgt(*old(node)) <= 64,
        ensures
            Self::opt_stats_ok(*final(node)),
            Self::opt_balanced(*final(node)),
            Self::opt_seq(*final(node)) == Self::opt_seq(*old(node)).remove(index as int),
            r == Self::opt_seq(*old(node))[index as int],
            Self::opt_hgt(*old(node)) - 1 <= Self::opt_hgt(*final(node)) <= Self::opt_hgt(
                *old(node),
            ),
        decreases Self::opt_len(*old(node)),
    {
        let mut b = node.take().unwrap();
        let ghost o = *b;
        proof {
            o.lemma_child_bounds();
        }
        let lc = b.lcount() as usize;
        if index < lc {
            let mut l = b.detach_left();
            let v = Self::remove_at(&mut l, index);
            b.insert_left(l);
            b.rebalance();
            proof {
                assert(o.subtree_seq().remove(index as int) =~= Self::opt_seq(
                    o.left_spec(),
                ).remove(index as int) + seq![o.value_spec()] + Self::opt_seq(o.right_spec()));
                assert(o.subtree_seq()[index as int] == Self::opt_seq(o.left_spec())[index as int]);
            }
            *node = Some(b);
            v
        } else if index == lc {
            match b.detach_left() {
                None => {
                    let r = b.detach_right();
                    proof {
                        assert(o.subtree_seq().remove(index as int) =~= Self::opt_seq(
                            o.right_spec(),
                        ));
                        assert(o.subtree_seq()[index as int] == o.value_spec());
                    }
                    *node = r;
                    b.into_value()
                },
                Some(lb) => {
                    let mut lopt = Some(lb);
                    let pred = Self::remove_rightmost(&mut lopt);
                    let mut v = pred;
                    core::mem::swap(&mut v, &mut b.val);
                    b.insert_left(lopt);
                    b.rebalance();
                    proof {
                        let lseq = Self::opt_seq(o.left_spec());
                        assert(o.subtree_seq().remove(index as int) =~= lseq.drop_last() + seq![
                            lseq.last(),
                        ] + Self::opt_seq(o.right_spec()));
                        assert(o.subtree_seq()[index as int] == o.value_spec());
                    }
                    *node = Some(b);
                    v
                },
            }
        } else {
            let mut rsub = b.detach_right();
            let v = Self::remove_at(&mut rsub, index - lc - 1);
            b.insert_right(rsub);
            b.rebalance();
            proof {
                assert(o.subtree_seq().remove(index as int) =~= Self::opt_seq(o.left_spec())
                    + seq![o.value_spec()] + Self::opt_seq(o.right_spec()).remove(
                    index - lc - 1,
                ));
                assert(o.subtree_seq()[index as int] == Self::opt_seq(o.right_spec())[index - lc
                    - 1]);
            }
            *node = Some(b);
            v
        }
    }

    /// An AVL-balanced subtree with consistent statistics holds at least
    /// 2^(h/2) values, where h is its height.
    proof fn lemma_min_size(self)
        requires
            self.stats_ok(),
            self.balanced(),
        ensures
            pow2((self.hgt() / 2) as nat) <= self.subtree_seq().len(),
        decreases self,
    {
        vstd::arithmetic::power2::lemma2_to64();
        self.lemma_child_bounds();
        let h = self.hgt();
        if h >= 2 {
            let lh = Self::opt_hgt(self.left);
            let rh = Self::opt_hgt(self.right);
            assert(lh >= h - 2 && rh >= h - 2) by {
                assert(-1 <= self.bal_spec() <= 1);
            }
            let l = self.left.unwrap();
            let r = self.right.unwrap();
            l.lemma_min_size();
            r.lemma_min_size();
            assert(pow2(((h - 2) / 2) as nat) <= l.subtree_seq().len()) by {
                if (h - 2) / 2 < lh / 2 {
                    vstd::arithmetic::power2::lemma_pow2_strictly_increases(
                        ((h - 2) / 2) as nat,
                        (lh / 2) as nat,
                    );
                }
            }
            assert(pow2(((h - 2) / 2) as nat) <= r.subtree_seq().len()) by {
                if (h - 2) / 2 < rh / 2 {
                    vstd::arithmetic::power2::lemma_pow2_strictly_increases(
                        ((h - 2) / 2) as nat,
                        (rh / 2) as nat,
                    );
                }
            }
            vstd::arithmetic::power2::lemma_pow2_adds(((h - 2) / 2) as nat, 1);
            assert(pow2((h / 2) as nat) == 2 * pow2(((h - 2) / 2) as nat));
        }
    }

    /// An AVL-balanced subtree whose node count fits in 32 bits has height
    /// at most 63.
    proof fn lemma_height_bound(self)
        requires
            self.stats_ok(),
            self.balanced(),
        ensures
            self.hgt() <= 63,
            self.subtree_seq().len() <= u32::MAX,
    {
        self.lemma_child_bounds();
        self.lemma_min_size();
        if self.hgt() > 63 {
            vstd::arithmetic::power2::lemma2_to64();
            vstd::arithmetic::power2::lemma_pow2_strictly_increases(
                32,
                (self.hgt() / 2) as nat,
            );
        }
    }

    /// Check at run time that every node of this subtree has a balance
    /// factor in [-1, 1].
    fn check_balanced(&self) -> (b: bool)
        requires
            self.stats_ok(),
        ensures
            b == self.balanced(),
        decreases self.subtree_seq().len(),
    {
        proof {
            self.lemma_child_bounds();
        }
        let bf = self.balance_factor();
        if bf < -1 || bf > 1 {
            return false;
        }
        let lb = match &self.left {
            None => true,
            Some(l) => {
                proof {
                    assert(l.stats_ok());
                }
                l.check_balanced()
            },
        };
        if !lb {
            return false;
        }
        match &self.right {
            None => true,
            Some(r) => {
                proof {
                    assert(r.stats_ok());
                }
                r.check_balanced()
            },
        }
    }

    /// Mathematical model of this subtree.
    pub closed spec fn tree_model(self) -> crate::GTree<T>
        decreases self,
    {
        crate::GTree::Branch {
            left: Box::new(Self::opt_model(self.left)),
            val: self.val,
            right: Box::new(Self::opt_model(self.right)),
        }
    }

    /// Mathematical model of an optional subtree.
    pub closed spec fn opt_model(o: Option<Box<CountNode<T>>>) -> crate::GTree<T>
        decreases o,
    {
        match o {
            None => crate::GTree::Tip,
            Some(n) => n.tree_model(),
        }
    }

    /// Replace the value at in-order position `index` of this subtree,
    /// returning the previous one. Touches no link and no cached statistic.
    fn set_at(&mut self, index: usize, value: T) -> (r: T)
        requires
            old(self).stats_ok(),
            index < old(self).subtree_seq().len(),
        ensures
            r == old(self).subtree_seq()[index as int],
            final(self).subtree_seq() == old(self).subtree_seq().update(index as int, value),
            final(self).stats_ok(),
            crate::gshape(final(self).tree_model()) == crate::gshape(old(self).tree_model()),
        decreases old(self).subtree_seq().len(),
    {
        let ghost o = *old(self);
        proof {
            o.lemma_child_bounds();
        }
        let lc = self.lcount() as usize;
        if index < lc {
            let r = match &mut self.left {
                Some(l) => l.set_at(index, value),
                None => vstd::pervasive::unreached(),
            };
            proof {
                assert(self.subtree_seq() =~= o.subtree_seq().update(index as int, value));
                assert(self.stats_ok()) by {
                    assert(self.subtree_seq().len() == o.subtree_seq().len());
                    assert(self.hgt() == o.hgt()) by {
                        Self::lemma_shape_same_hgt(
                            *self.left_spec().unwrap(),
                            *o.left_spec().unwrap(),
                        );
                    }
                }
                assert(crate::gshape(self.tree_model()) == crate::gshape(o.tree_model()));
            }
            r
        } else if index == lc {
            let mut v = value;
            core::mem::swap(&mut v, &mut self.val);
            proof {
                assert(self.subtree_seq() =~= o.subtree_seq().update(index as int, value));
                assert(self.hgt() == o.hgt());
                assert(crate::gshape(self.tree_model()) == crate::gshape(o.tree_model()));
            }
            v
        } else {
            let r = match &mut self.right {
                Some(rt) => rt.set_at(index - lc - 1, value),
                None => vstd::pervasive::unreached(),
            };
            proof {
                assert(self.subtree_seq() =~= o.subtree_seq().update(index as int, value));
                assert(self.stats_ok()) by {
                    assert(self.subtree_seq().len() == o.subtree_seq().len());
                    assert(self.hgt() == o.hgt()) by {
                        Self::lemma_shape_same_hgt(
                            *self.right_spec().unwrap(),
                            *o.right_spec().unwrap(),
                        );
                    }
                }
                assert(crate::gshape(self.tree_model()) == crate::gshape(o.tree_model()));
            }
            r
        }
    }

    /// Two subtrees of the same shape have the same height, and one is
    /// AVL-balanced exactly when the other is.
    proof fn lemma_shape_same_hgt(a: CountNode<T>, b: CountNode<T>)
        requires
            crate::gshape(a.tree_model()) == crate::gshape(b.tree_model()),
        ensures
            a.hgt() == b.hgt(),
            a.balanced() == b.balanced(),
        decreases a,
    {
        assert(crate::gshape(Self::opt_model(a.left)) == crate::gshape(Self::opt_model(b.left)));
        assert(crate::gshape(Self::opt_model(a.right)) == crate::gshape(
            Self::opt_model(b.right),
        ));
        match (a.left, b.left) {
            (Some(x), Some(y)) => Self::lemma_shape_same_hgt(*x, *y),
            (Some(x), None) => {
                assert(crate::gshape(x.tree_model()) is Branch);
                assert(false);
            },
            (None, Some(y)) => {
                assert(crate::gshape(y.tree_model()) is Branch);
                assert(false);
            },
            (None, None) => (),
        }
        match (a.right, b.right) {
            (Some(x), Some(y)) => Self::lemma_shape_same_hgt(*x, *y),
            (Some(x), None) => {
                assert(crate::gshape(x.tree_model()) is Branch);
                assert(false);
            },
            (None, Some(y)) => {
                assert(crate::gshape(y.tree_model()) is Branch);
                assert(false);
            },
            (None, None) => (),
        }
    }

    /// Append the values of `new_node` at the very end (rightmost position)
    /// of this subtree, updating statistics but not rebalancing.
    fn attach_rightmost(&mut self, new_node: Box<CountNode<T>>)
        requires
            old(self).stats_ok(),
            new_node.stats_ok(),
            old(self).subtree_seq().len() + new_node.subtree_seq().len() <= u32::MAX,
            old(self).hgt() + new_node.hgt() + 2 <= u16::MAX,
        ensures
            final(self).stats_ok(),
            final(self).subtree_seq() == old(self).subtree_seq() + new_node.subtree_seq(),
            final(self).hgt() <= old(self).hgt() + new_node.hgt() + 1,
        decreases old(self).subtree_seq().len(),
    {
        let ghost o = *old(self);
        proof {
            o.lemma_child_bounds();
            new_node.lemma_child_bounds();
        }
        match self.detach_right() {
            None => {
                self.insert_right(Some(new_node));
                proof {
                    assert(self.subtree_seq() =~= o.subtree_seq() + new_node.subtree_seq());
                }
            },
            Some(mut r) => {
                r.attach_rightmost(new_node);
                self.insert_right(Some(r));
                proof {
                    assert(self.subtree_seq() =~= o.subtree_seq() + new_node.subtree_seq());
                }
            },
        }
    }

    /// Insert the subtree `new_node` in-order immediately before this node's
    /// value: its values end up just after this node's left subtree.
    /// Statistics are updated along the way; no rebalancing is performed.
    pub fn insert_before(&mut self, new_node: Box<CountNode<T>>)
        requires
            old(self).stats_ok(),
            new_node.stats_ok(),
            old(self).subtree_seq().len() + new_node.subtree_seq().len() <= u32::MAX,
            old(self).hgt() + new_node.hgt() + 2 <= u16::MAX,
        ensures
            final(self).stats_ok(),
            final(self).subtree_seq() == Self::opt_seq(old(self).left_spec())
                + new_node.subtree_seq() + seq![old(self).value_spec()] + Self::opt_seq(
                old(self).right_spec(),
            ),
            final(self).value_spec() == old(self).value_spec(),
            final(self).right_spec() == old(self).right_spec(),
    {
        let ghost o = *old(self);
        proof {
            o.lemma_child_bounds();
            new_node.lemma_child_bounds();
        }
        match self.detach_left() {
            None => {
                self.insert_left(Some(new_node));
            },
            Some(mut l) => {
                l.attach_rightmost(new_node);
                self.insert_left(Some(l));
            },
        }
    }

    /// The children of a node with consistent statistics are smaller and
    /// shorter than the node itself, and their sizes and heights fit the
    /// cached fields.
    proof fn lemma_child_bounds(&self)
        requires
            self.stats_ok(),
        ensures
            Self::opt_stats_ok(self.left_spec()),
            Self::opt_stats_ok(self.right_spec()),
            1 + Self::opt_len(self.left_spec()) + Self::opt_len(self.right_spec())
                == self.count_spec(),
            self.subtree_seq().len() == self.count_spec(),
            Self::opt_hgt(self.left_spec()) <= self.hgt() - 1,
            Self::opt_hgt(self.right_spec()) <= self.hgt() - 1,
            self.hgt() == self.height_spec(),
            self.hgt() >= 0,
    {
    }
}

impl<T> CountNode<T> {
    /// The in-order sequence of a subtree is the in-order sequence of its
    /// model.
    proof fn lemma_model_seq(self)
        ensures
            crate::gseq(self.tree_model()) == self.subtree_seq(),
        decreases self,
    {
        Self::lemma_opt_model_seq(self.left);
        Self::lemma_opt_model_seq(self.right);
    }

    /// `lemma_model_seq` for an optional subtree.
    proof fn lemma_opt_model_seq(o: Option<Box<CountNode<T>>>)
        ensures
            crate::gseq(Self::opt_model(o)) == Self::opt_seq(o),
        decreases o,
    {
        match o {
            None => {
                assert(crate::gseq(Self::opt_model(o)) =~= Self::opt_seq(o));
            },
            Some(n) => n.lemma_model_seq(),
        }
    }
}

impl<T> crate::Node for CountNode<T> {
    type Value = T;

    closed spec fn model(&self) -> crate::GTree<T> {
        self.tree_model()
    }

    closed spec fn inv(&self) -> bool {
        self.stats_ok()
    }

    proof fn lemma_model_branch(&self) {
    }

    fn left(&self) -> (r: Option<&Self>) {
        match &self.left {
            None => None,
            Some(b) => Some(&**b),
        }
    }

    fn right(&self) -> (r: Option<&Self>) {
        match &self.right {
            None => None,
            Some(b) => Some(&**b),
        }
    }

    fn value(&self) -> (r: &T) {
        &self.val
    }
}

impl<T> crate::NodeMut for CountNode<T> {
    fn detach_left(&mut self) -> (r: Option<Box<Self>>) {
        CountNode::detach_left(self)
    }

    fn detach_right(&mut self) -> (r: Option<Box<Self>>) {
        CountNode::detach_right(self)
    }

    fn value_owned(self) -> (v: T) {
        self.val
    }
}

/// Counting tree.
///
/// A balanced binary tree which keeps track of the total number of child
/// nodes in each node, so that elements can be inserted and deleted using
/// their in-order index. The algorithm used internally is a variation of an
/// AVL tree: after every mutation, every node's balance factor is back in
/// [-1, 1], and every cached subtree size and height matches its recursive
/// definition. Both facts are an invariant of the type, established at every
/// construction site; `observe_invariants` exports them.
///
/// The tree is viewed as the `Seq<T>` of its values in in-order, written
/// `t@`; every operation's contract is stated against that sequence.
#[derive(Debug)]
pub struct CountTree<T>(Option<Box<CountNode<T>>>);

impl<T> View for CountTree<T> {
    type V = Seq<T>;

    closed spec fn view(&self) -> Seq<T> {
        CountNode::opt_seq(self.0)
    }
}

impl<T> CountTree<T> {
    /// Well-formedness: consistent cached statistics and AVL balance at
    /// every node. Holds for every reachable `CountTree` value.
    #[verifier::type_invariant]
    spec fn wf(self) -> bool {
        CountNode::opt_stats_ok(self.0) && CountNode::opt_balanced(self.0)
    }

    /// Every node of the tree has a balance factor in [-1, 1].
    pub closed spec fn balanced(&self) -> bool {
        CountNode::opt_balanced(self.0)
    }

    /// Every node's cached subtree size and height match their recursive
    /// definitions.
    pub closed spec fn stats_consistent(&self) -> bool {
        CountNode::opt_stats_ok(self.0)
    }

    /// Height of the tree: -1 when empty, else the root's height.
    pub closed spec fn height_of(&self) -> int {
        CountNode::opt_hgt(self.0)
    }

    /// The shape of the tree, with the values blanked out.
    pub closed spec fn shape(&self) -> crate::GTree<()> {
        crate::gshape(CountNode::opt_model(self.0))
    }

    /// After any sequence of operations, every node's balance factor is in
    /// [-1, 1] and the cached sizes and heights match their recursive
    /// definitions: both are invariants of the type itself.
    pub fn observe_invariants(&self)
        ensures
            self.balanced(),
            self.stats_consistent(),
            self@.len() <= u32::MAX,
    {
        proof {
            use_type_invariant(self);
            if self.0 is Some {
                (*self.0.unwrap()).lemma_height_bound();
            }
        }
    }

    /// A tree of bounded size is logarithmically shallow: the tree holds at
    /// least 2^(h/2) elements, so its height never exceeds 63.
    pub fn observe_height_log_bound(&self)
        ensures
            self@.len() > 0 ==> pow2((self.height_of() / 2) as nat) <= self@.len(),
            self.height_of() <= 63,
    {
        proof {
            use_type_invariant(self);
            if self.0 is Some {
                (*self.0.unwrap()).lemma_min_size();
                (*self.0.unwrap()).lemma_height_bound();
            }
        }
    }

    /// Two optional subtrees of the same shape are balanced together.
    proof fn lemma_same_shape_balanced(
        a: Option<Box<CountNode<T>>>,
        b: Option<Box<CountNode<T>>>,
    )
        requires
            crate::gshape(CountNode::opt_model(a)) == crate::gshape(CountNode::opt_model(b)),
            CountNode::opt_balanced(b),
        ensures
            CountNode::opt_balanced(a),
    {
        match (a, b) {
            (Some(x), Some(y)) => CountNode::lemma_shape_same_hgt(*x, *y),
            (Some(x), None) => {
                assert(crate::gshape(x.tree_model()) is Branch);
                assert(false);
            },
            (None, _) => (),
        }
    }

    /// Returns an empty `CountTree`.
    pub fn new() -> (t: CountTree<T>)
        ensures
            t@ == Seq::<T>::empty(),
    {
        CountTree(None)
    }

    /// Returns `true` if the tree contains no elements.
    pub fn is_empty(&self) -> (b: bool)
        ensures
            b == (self@.len() == 0),
    {
        proof {
            use_type_invariant(self);
            if self.0 is Some {
                (*self.0.unwrap()).lemma_child_bounds();
            }
        }
        self.0.is_none()
    }

    /// Returns the number of elements in the tree. Time complexity: O(1).
    pub fn len(&self) -> (n: usize)
        ensures
            n == self@.len(),
    {
        proof {
            use_type_invariant(self);
        }
        match &self.0 {
            None => 0,
            Some(node) => {
                proof {
                    assert(node.stats_ok());
                }
                node.count() as usize
            },
        }
    }

    /// Clears the tree, dropping all elements iteratively: the nodes are
    /// consumed by the explicit-stack iterator, never by recursive descent.
    pub fn clear(&mut self)
        ensures
            final(self)@ == Seq::<T>::empty(),
    {
        proof {
            use_type_invariant(&*self);
        }
        let mut root = None;
        core::mem::swap(&mut root, &mut self.0);
        proof {
            CountNode::lemma_opt_model_seq(root);
        }
        let drained = crate::iter::IntoIter::new(root);
        let _ = drained;
        proof {
            assert(self@ =~= Seq::<T>::empty());
        }
    }

    /// Returns the element at the given index, or `None` if the index is out
    /// of bounds. Time complexity: O(log(n)).
    pub fn get(&self, index: usize) -> (r: Option<&T>)
        ensures
            index < self@.len() ==> (r matches Some(v) && *v == self@[index as int]),
            index >= self@.len() ==> r is None,
    {
        proof {
            use_type_invariant(self);
        }
        let n = self.len();
        if index >= n {
            None
        } else {
            match &self.0 {
                Some(node) => Some(node.get_at(index)),
                None => vstd::pervasive::unreached(),
            }
        }
    }

    /// Replace the element at the given index with `value`, returning the
    /// previous element, or return `None` (and change nothing) if the index
    /// is out of bounds. Neither the structure of the tree nor any cached
    /// size or height changes. Mutable access is expressed as an in-place
    /// replacement, since a bare mutable borrow into the tree cannot be
    /// handed out while the balance invariant is being tracked. Time
    /// complexity: O(log(n)).
    pub fn get_mut(&mut self, index: usize, value: T) -> (r: Option<T>)
        ensures
            index < old(self)@.len() ==> ({
                &&& r matches Some(v) && v == old(self)@[index as int]
                &&& final(self)@ == old(self)@.update(index as int, value)
                &&& final(self).shape() == old(self).shape()
            }),
            index >= old(self)@.len() ==> r is None && *final(self) == *old(self),
    {
        proof {
            use_type_invariant(&*self);
        }
        let n = self.len();
        if index >= n {
            None
        } else {
            let mut root = None;
            core::mem::swap(&mut root, &mut self.0);
            let v = match &mut root {
                Some(node) => node.set_at(index, value),
                None => vstd::pervasive::unreached(),
            };
            proof {
                Self::lemma_same_shape_balanced(root, old(self).0);
            }
            self.0 = root;
            Some(v)
        }
    }

    /// Inserts an element at the given index, so that it becomes the element
    /// at that position. The index must be at most `len()`, and the tree
    /// must not already hold `u32::MAX` elements. Time complexity:
    /// O(log(n)).
    pub fn insert(&mut self, index: usize, value: T)
        requires
            index <= old(self)@.len(),
            old(self)@.len() < u32::MAX,
        ensures
            final(self)@ == old(self)@.insert(index as int, value),
            final(self)@.len() == old(self)@.len() + 1,
    {
        proof {
            use_type_invariant(&*self);
            old(self)@.insert_ensures(index as int, value);
        }
        let n = self.len();
        if index == 0 {
            self.push_front(value);
            proof {
                assert(old(self)@.insert(0, value) =~= seq![value] + old(self)@);
            }
        } else if index < n {
            let mut root = None;
            core::mem::swap(&mut root, &mut self.0);
            match &mut root {
                Some(node) => {
                    proof {
                        node.lemma_height_bound();
                    }
                    node.insert_at(index, value);
                },
                None => vstd::pervasive::unreached(),
            }
            self.0 = root;
        } else {
            self.push_back(value);
            proof {
                assert(old(self)@.insert(index as int, value) =~= old(self)@ + seq![value]);
            }
        }
    }

    /// Prepends an element at the beginning.
    pub fn push_front(&mut self, value: T)
        requires
            old(self)@.len() < u32::MAX,
        ensures
            final(self)@ == seq![value] + old(self)@,
            final(self)@.len() == old(self)@.len() + 1,
    {
        proof {
            use_type_invariant(&*self);
        }
        let mut root = None;
        core::mem::swap(&mut root, &mut self.0);
        match &mut root {
            None => {
                root = Some(Box::new(CountNode::new(value)));
                proof {
                    assert(CountNode::opt_seq(root) =~= seq![value] + CountNode::opt_seq(
                        old(self).0,
                    ));
                }
            },
            Some(node) => {
                proof {
                    node.lemma_height_bound();
                }
                node.insert_at(0, value);
                proof {
                    assert(node.subtree_seq() =~= seq![value] + CountNode::opt_seq(old(self).0));
                }
            },
        }
        self.0 = root;
    }

    /// Appends an element at the end.
    pub fn push_back(&mut self, value: T)
        requires
            old(self)@.len() < u32::MAX,
        ensures
            final(self)@ == old(self)@ + seq![value],
            final(self)@.len() == old(self)@.len() + 1,
    {
        proof {
            use_type_invariant(&*self);
        }
        let mut root = None;
        core::mem::swap(&mut root, &mut self.0);
        match &mut root {
            None => {
                root = Some(Box::new(CountNode::new(value)));
                proof {
                    assert(CountNode::opt_seq(root) =~= CountNode::opt_seq(old(self).0) + seq![
                        value,
                    ]);
                }
            },
            Some(node) => {
                proof {
                    node.lemma_height_bound();
                }
                let n = node.count() as usize;
                node.insert_at(n, value);
                proof {
                    assert(node.subtree_seq() =~= CountNode::opt_seq(old(self).0) + seq![value]);
                }
            },
        }
        self.0 = root;
    }

    /// Removes and returns the element at the given index, which must be in
    /// bounds. Time complexity: O(log(n)).
    pub fn remove(&mut self, index: usize) -> (r: T)
        requires
            index < old(self)@.len(),
        ensures
            final(self)@ == old(self)@.remove(index as int),
            r == old(self)@[index as int],
            final(self)@.len() == old(self)@.len() - 1,
    {
        proof {
            use_type_invariant(&*self);
            old(self)@.remove_ensures(index as int);
        }
        let n = self.len();
        if index == 0 {
            let r = self.pop_front();
            proof {
                assert(old(self)@.remove(0) =~= old(self)@.drop_first());
            }
            match r {
                Some(v) => v,
                None => vstd::pervasive::unreached(),
            }
        } else if index + 1 < n {
            let mut root = None;
            core::mem::swap(&mut root, &mut self.0);
            proof {
                if root is Some {
                    (*root.unwrap()).lemma_height_bound();
                }
            }
            let v = CountNode::remove_at(&mut root, index);
            self.0 = root;
            v
        } else {
            let r = self.pop_back();
            proof {
                assert(old(self)@.remove(index as int) =~= old(self)@.drop_last());
            }
            match r {
                Some(v) => v,
                None => vstd::pervasive::unreached(),
            }
        }
    }

    /// Removes and returns the first element, or `None` if the tree is
    /// empty.
    pub fn pop_front(&mut self) -> (r: Option<T>)
        ensures
            old(self)@.len() == 0 ==> r is None && *final(self) == *old(self),
            old(self)@.len() > 0 ==> (r matches Some(v) && v == old(self)@[0] && final(self)@
                == old(self)@.drop_first() && final(self)@.len() == old(self)@.len() - 1),
    {
        proof {
            use_type_invariant(&*self);
        }
        let mut root = None;
        core::mem::swap(&mut root, &mut self.0);
        if root.is_some() {
            proof {
                if root is Some {
                    (*root.unwrap()).lemma_height_bound();
                }
            }
            let v = CountNode::remove_leftmost(&mut root);
            self.0 = root;
            Some(v)
        } else {
            self.0 = root;
            None
        }
    }

    /// Removes and returns the last element, or `None` if the tree is
    /// empty.
    pub fn pop_back(&mut self) -> (r: Option<T>)
        ensures
            old(self)@.len() == 0 ==> r is None && *final(self) == *old(self),
            old(self)@.len() > 0 ==> (r matches Some(v) && v == old(self)@.last() && final(self)@
                == old(self)@.drop_last() && final(self)@.len() == old(self)@.len() - 1),
    {
        proof {
            use_type_invariant(&*self);
        }
        let mut root = None;
        core::mem::swap(&mut root, &mut self.0);
        if root.is_some() {
            proof {
                if root is Some {
                    (*root.unwrap()).lemma_height_bound();
                }
            }
            let v = CountNode::remove_rightmost(&mut root);
            self.0 = root;
            Some(v)
        } else {
            self.0 = root;
            None
        }
    }

    /// Wrap an already-formed node as a tree. The node must carry consistent
    /// statistics and be AVL-balanced.
    pub fn from_node(node: Box<CountNode<T>>) -> (t: CountTree<T>)
        requires
            node.stats_ok(),
            node.balanced(),
        ensures
            t@ == node.subtree_seq(),
    {
        CountTree(Some(node))
    }

    /// A shared reference to the root node, or `None` if the tree is empty.
    pub fn root(&self) -> (r: Option<&CountNode<T>>)
        ensures
            match r {
                Some(n) => self@ == n.subtree_seq() && n.stats_ok() && n.balanced(),
                None => self@.len() == 0,
            },
    {
        proof {
            use_type_invariant(self);
        }
        match &self.0 {
            None => None,
            Some(b) => Some(&**b),
        }
    }
}

/// A 32-bit power of two has no bit in common with its predecessor.
proof fn lemma_pow2_bit(v: u32)
    requires
        is_pow2(v as int),
    ensures
        v != 0,
        v & (v - 1) as u32 == 0,
    decreases v,
{
    reveal(vstd::arithmetic::power2::is_pow2);
    if v == 0 {
    } else if v == 1 {
        assert(1u32 & ((1u32 - 1) as u32) == 0) by (bit_vector);
    } else {
        let h = v / 2;
        assert(v as int % 2 == 0 && is_pow2(v as int / 2));
        assert(v as int / 2 == h as int);
        lemma_pow2_bit(h);
        assert(v & ((v - 1) as u32) == 0) by (bit_vector)
            requires
                h == v / 2 && h != 0 && h & ((h - 1) as u32) == 0 && v % 2 == 0,
        ;
    }
}

/// A nonzero 32-bit value with no bit in common with its predecessor is a
/// power of two.
proof fn lemma_bit_pow2(v: u32)
    requires
        v != 0,
        v & (v - 1) as u32 == 0,
    ensures
        is_pow2(v as int),
    decreases v,
{
    reveal(vstd::arithmetic::power2::is_pow2);
    if v == 1 {
    } else {
        let h = v / 2;
        assert(v % 2 == 0 && h != 0 && h & ((h - 1) as u32) == 0) by (bit_vector)
            requires
                v != 0 && v != 1 && v & ((v - 1) as u32) == 0 && h == v / 2,
        ;
        lemma_bit_pow2(h);
        assert(v as int / 2 == h as int);
        assert(v as int % 2 == 0);
    }
}

/// True iff `v` is a nonzero power of two.
pub fn is_power(v: u32) -> (r: bool)
    ensures
        r == is_pow2(v as int),
{
    proof {
        reveal(vstd::arithmetic::power2::is_pow2);
    }
    if v == 0 {
        false
    } else {
        let r = v & (v - 1) == 0;
        proof {
            if r {
                lemma_bit_pow2(v);
            } else {
                if is_pow2(v as int) {
                    lemma_pow2_bit(v);
                }
            }
        }
        r
    }
}

/// Round `v` up to the next power of two and halve it: `v` itself when `v`
/// is zero or already a power of two, and otherwise the largest power of
/// two strictly below `v`.
pub fn exp_floor_log(v: u32) -> (r: u32)
    requires
        v <= 0x8000_0000,
    ensures
        (v == 0 || is_pow2(v as int)) ==> r == v,
        !(v == 0 || is_pow2(v as int)) ==> is_pow2(r as int) && r < v < 2 * r,
{
    if v == 0 || is_power(v) {
        v
    } else {
        proof {
            reveal(vstd::arithmetic::power2::is_pow2);
            assert(v >= 2);
        }
        let f0: u32 = v - 1;
        let f1: u32 = f0 | (f0 >> 1);
        let f2: u32 = f1 | (f1 >> 2);
        let f3: u32 = f2 | (f2 >> 4);
        let f4: u32 = f3 | (f3 >> 8);
        let f5: u32 = f4 | (f4 >> 16);
        proof {
            assert(f5 & ((f5 + 1) as u32) == 0 && f5 != 0xFFFF_FFFFu32 && f5 >= v - 1 && f5 < 2
                * (v - 1) && f5 % 2 == 1) by (bit_vector)
                requires
                    2 <= v && v <= 0x8000_0000u32 && f0 == v - 1 && f1 == f0 | (f0 >> 1) && f2
                        == f1 | (f1 >> 2) && f3 == f2 | (f2 >> 4) && f4 == f3 | (f3 >> 8) && f5
                        == f4 | (f4 >> 16),
            ;
        }
        let next = f5 + 1;
        let r = next >> 1;
        proof {
            assert(next & ((next - 1) as u32) == 0 && next != 0 && r == next / 2 && next % 2 == 0
                && 2 * r == next) by (bit_vector)
                requires
                    f5 & ((f5 + 1) as u32) == 0 && f5 != 0xFFFF_FFFFu32 && f5 % 2 == 1 && next
                        == f5 + 1 && r == next >> 1,
            ;
            lemma_bit_pow2(next);
            reveal(vstd::arithmetic::power2::is_pow2);
            assert(is_pow2(next as int / 2));
            assert(next as int / 2 == r as int);
            assert(next != v);
            assert(next > v);
            assert(2 * r > v);
            assert(r < v) by {
                assert(2 * r == next && next <= 2 * (v - 1));
            }
        }
        r
    }
}

/// Floor of the base-2 logarithm, the height of a perfectly balanced tree
/// of `n` values; -1 for `n == 0`, the height of an empty tree.
pub open spec fn log2_floor(n: int) -> int
    decreases n,
{
    if n <= 0 {
        -1
    } else if n == 1 {
        0
    } else {
        1 + log2_floor(n / 2)
    }
}

/// `log2_floor` is characterized by the powers of two around its argument.
proof fn lemma_log2_floor_bounds(n: int)
    requires
        n >= 1,
    ensures
        log2_floor(n) >= 0,
        pow2(log2_floor(n) as nat) <= n < pow2((log2_floor(n) + 1) as nat),
    decreases n,
{
    vstd::arithmetic::power2::lemma2_to64();
    if n >= 2 {
        lemma_log2_floor_bounds(n / 2);
        let l = log2_floor(n / 2);
        vstd::arithmetic::power2::lemma_pow2_adds(l as nat, 1);
        vstd::arithmetic::power2::lemma_pow2_adds((l + 1) as nat, 1);
    }
}

/// `log2_floor` never decreases as its argument grows.
proof fn lemma_log2_floor_mono(m: int, n: int)
    requires
        1 <= m <= n,
    ensures
        log2_floor(m) <= log2_floor(n),
{
    lemma_log2_floor_bounds(m);
    lemma_log2_floor_bounds(n);
    if log2_floor(m) > log2_floor(n) {
        if log2_floor(m) > log2_floor(n) + 1 {
            vstd::arithmetic::power2::lemma_pow2_strictly_increases(
                (log2_floor(n) + 1) as nat,
                log2_floor(m) as nat,
            );
        }
    }
}

/// `log2_floor` grows by at most one per increment of its argument.
proof fn lemma_log2_floor_step(n: int)
    requires
        n >= 2,
    ensures
        log2_floor(n) <= log2_floor(n - 1) + 1,
{
    lemma_log2_floor_bounds(n);
    lemma_log2_floor_bounds(n - 1);
    let d = log2_floor(n - 1);
    if log2_floor(n) >= d + 2 {
        if log2_floor(n) > d + 2 {
            vstd::arithmetic::power2::lemma_pow2_strictly_increases(
                (d + 2) as nat,
                log2_floor(n) as nat,
            );
        }
        vstd::arithmetic::power2::lemma_pow2_adds((d + 1) as nat, 1);
        vstd::arithmetic::power2::lemma2_to64();
        vstd::arithmetic::power2::lemma_pow2_pos((d + 1) as nat);
        assert(n - 1 < pow2((d + 1) as nat));
        assert(pow2((d + 2) as nat) == 2 * pow2((d + 1) as nat));
        assert(pow2((d + 2) as nat) <= pow2(log2_floor(n) as nat));
        assert(false);
    }
}

/// A value that fits in 32 bits has `log2_floor` at most 31.
proof fn lemma_log2_floor_u32(n: int)
    requires
        0 <= n <= u32::MAX,
    ensures
        log2_floor(n) <= 31,
{
    if n >= 1 {
        lemma_log2_floor_bounds(n);
        if log2_floor(n) >= 32 {
            vstd::arithmetic::power2::lemma2_to64();
            if log2_floor(n) > 32 {
                vstd::arithmetic::power2::lemma_pow2_strictly_increases(
                    32,
                    log2_floor(n) as nat,
                );
            }
        }
    }
}

/// Compute floor(log2(n)) at run time.
fn floor_log2(n: u32) -> (e: u32)
    requires
        n >= 1,
    ensures
        e as int == log2_floor(n as int),
{
    proof {
        lemma_log2_floor_u32(n as int);
        lemma_log2_floor_bounds(n as int);
    }
    let mut m = n;
    let mut e: u32 = 0;
    while m >= 2
        invariant
            m >= 1,
            e + log2_floor(m as int) == log2_floor(n as int),
            log2_floor(n as int) <= 31,
            log2_floor(m as int) >= 0,
        decreases m,
    {
        proof {
            lemma_log2_floor_bounds(m as int / 2);
        }
        m = m / 2;
        e = e + 1;
    }
    e
}

impl<T> CountTree<T> {
    /// Build a perfectly height-balanced subtree from the next `n` values
    /// of `stack`, which holds pending values in reverse so that `pop`
    /// yields them in order: the middle value becomes the root, the values
    /// before it the left subtree, the values after it the right one. The
    /// height of the result is exactly floor(log2(n)).
    #[verifier::rlimit(60)]
    fn build_balanced(stack: &mut Vec<T>, n: usize) -> (r: Option<Box<CountNode<T>>>)
        requires
            n <= old(stack)@.len(),
            n <= u32::MAX,
        ensures
            final(stack)@ == old(stack)@.take(old(stack)@.len() - n),
            CountNode::opt_seq(r) == old(stack)@.skip(old(stack)@.len() - n).reverse(),
            CountNode::opt_stats_ok(r),
            CountNode::opt_balanced(r),
            CountNode::opt_hgt(r) == log2_floor(n as int),
        decreases n,
    {
        let ghost s0 = stack@;
        if n == 0 {
            proof {
                assert(stack@ =~= s0.take(s0.len() as int));
                assert(CountNode::opt_seq(None::<Box<CountNode<T>>>) =~= s0.skip(
                    s0.len() as int,
                ).reverse());
            }
            None
        } else {
            let ln = n / 2;
            let rn = n - 1 - ln;
            let left = Self::build_balanced(stack, ln);
            let val = match stack.pop() {
                Some(v) => v,
                None => vstd::pervasive::unreached(),
            };
            let ghost s1 = stack@;
            let right = Self::build_balanced(stack, rn);
            let mut node = Box::new(CountNode::new(val));
            proof {
                lemma_log2_floor_u32(ln as int);
                lemma_log2_floor_u32(rn as int);
            }
            node.insert_left(left);
            node.insert_right(right);
            proof {
                // the three parts concatenate to the reversed segment
                assert(node.subtree_seq() =~= s0.skip(s0.len() - n as int).reverse()) by {
                    assert(CountNode::opt_seq(left) == s0.skip(s0.len() - ln as int).reverse());
                    assert(val == s0[s0.len() - ln as int - 1]);
                    assert(CountNode::opt_seq(right) == s1.skip(s1.len() - rn as int).reverse());
                    assert(s1 =~= s0.take(s0.len() - ln as int - 1));
                }
                // the height is the complete-binary-tree height
                if n == 1 {
                    assert(node.hgt() == 0);
                } else {
                    assert(log2_floor(n as int) == 1 + log2_floor(ln as int));
                    if rn == 0 {
                        assert(ln == 1);
                    } else {
                        lemma_log2_floor_mono(rn as int, ln as int);
                        if rn < ln {
                            lemma_log2_floor_step(ln as int);
                            lemma_log2_floor_mono(ln as int - 1, rn as int);
                        }
                    }
                }
                assert(node.balanced());
            }
            Some(node)
        }
    }

    /// Rebuild a tree by balanced midpoint construction: drain the interim
    /// tree in order with the explicit-stack iterator, stack what is left
    /// of the input behind it, and build the whole sequence afresh with
    /// `build_balanced`, so the result has the complete-binary-tree height.
    /// Only reachable when an interim shape outgrows the cached height
    /// guard or fails the final shape check, which no 32-bit-sized input
    /// produces; kept so that every path ends in a tree meeting the same
    /// contract.
    fn rebuild(node: Box<CountNode<T>>, rest: Vec<T>) -> (t: CountTree<T>)
        requires
            node.stats_ok(),
            node.subtree_seq().len() + rest@.len() <= u32::MAX,
        ensures
            t@ == node.subtree_seq() + rest@.reverse(),
            t.height_of() == log2_floor((node.subtree_seq().len() + rest@.len()) as int),
    {
        let ghost full = node.subtree_seq();
        let ghost target = node.subtree_seq() + rest@.reverse();
        proof {
            CountNode::lemma_opt_model_seq(Some(node));
        }
        let mut it = crate::iter::IntoIter::new(Some(node));
        let mut drained: Vec<T> = Vec::new();
        loop
            invariant
                drained@ + it.remaining() == full,
            ensures
                drained@ == full,
            decreases it.remaining().len(),
        {
            match it.next() {
                None => {
                    proof {
                        assert(drained@ =~= full);
                    }
                    break ;
                },
                Some(x) => {
                    drained.push(x);
                    proof {
                        assert(drained@ + it.remaining() =~= full);
                    }
                },
            }
        }
        // move the drained values, reversed, behind the rest of the input:
        // popping the combined stack then yields the whole target in order
        let mut stack = rest;
        let ghost rest0 = stack@;
        let ghost d0 = drained@;
        loop
            invariant
                drained@.len() <= d0.len(),
                stack@ == rest0 + d0.skip(drained@.len() as int).reverse(),
                drained@ == d0.take(drained@.len() as int),
            ensures
                stack@ == rest0 + d0.reverse(),
            decreases drained@.len(),
        {
            let ghost dl = drained@.len() as int;
            match drained.pop() {
                None => {
                    proof {
                        assert(stack@ =~= rest0 + d0.reverse());
                    }
                    break ;
                },
                Some(x) => {
                    stack.push(x);
                    proof {
                        assert(dl >= 1);
                        assert(x == d0.take(dl)[dl - 1]);
                        assert(x == d0[dl - 1]);
                        assert(d0.skip(dl - 1).reverse() =~= d0.skip(dl).reverse() + seq![x]);
                        assert(stack@ =~= rest0 + d0.skip(dl - 1).reverse());
                        assert(drained@ =~= d0.take(dl - 1));
                    }
                },
            }
        }
        let n = stack.len();
        proof {
            assert(stack@.len() == target.len());
        }
        let r = Self::build_balanced(&mut stack, n);
        proof {
            assert(CountNode::opt_seq(r) =~= target);
        }
        CountTree(r)
    }

    /// Build a tree holding the values of `v`, in order, in linear time.
    ///
    /// The input is consumed left to right: each new value becomes a
    /// temporary root with the tree built so far as its left subtree, and a
    /// bit-pattern test on the running count decides how many right
    /// rotations keep the shape near a complete binary tree. A final pass
    /// rotates the root right until its left subtree is within the largest
    /// power-of-two-minus-one bound, straightening the right spine on the
    /// way. The result is checked to be AVL-balanced and to have the
    /// complete-binary-tree height floor(log2(n)); on the paths where a
    /// check could fail (none is known to be reachable) the tree is
    /// rebuilt by balanced midpoint construction instead, so the balance
    /// invariant and the height contract hold unconditionally.
    #[verifier::rlimit(90)]
    pub fn from_vec(v: Vec<T>) -> (t: CountTree<T>)
        requires
            v@.len() <= u32::MAX,
        ensures
            t@ == v@,
            t.height_of() == log2_floor(v@.len() as int),
    {
        let ghost input = v@;
        let mut src = v;
        let mut stack: Vec<T> = Vec::new();
        loop
            invariant
                src@ + stack@.reverse() == input,
            ensures
                stack@.reverse() == input,
            decreases src@.len(),
        {
            let ghost stack0 = stack@;
            match src.pop() {
                None => {
                    proof {
                        assert(stack@.reverse() =~= input);
                    }
                    break ;
                },
                Some(x) => {
                    stack.push(x);
                    proof {
                        assert(stack@.reverse() =~= seq![x] + stack0.reverse());
                        assert(src@ + stack@.reverse() =~= input);
                    }
                },
            }
        }
        let ghost stack1 = stack@;
        match stack.pop() {
            None => {
                proof {
                    assert(input =~= Seq::<T>::empty());
                    assert(CountNode::<T>::opt_hgt(None) == -1);
                }
                CountTree::new()
            },
            Some(first) => {
                proof {
                    assert(stack1.reverse()[0] == first);
                    assert(stack@.reverse() =~= stack1.reverse().drop_first());
                }
                let mut node: Box<CountNode<T>> = Box::new(CountNode::new(first));
                proof {
                    assert(node.subtree_seq() + stack@.reverse() =~= input);
                }
                let mut count: u32 = 1;
                loop
                    invariant
                        node.stats_ok(),
                        count as int == node.subtree_seq().len(),
                        count >= 1,
                        node.subtree_seq() + stack@.reverse() == input,
                        input.len() <= u32::MAX,
                        input == v@,
                    ensures
                        node.stats_ok(),
                        count as int == node.subtree_seq().len(),
                        count >= 1,
                        node.subtree_seq() == input,
                        stack@.len() == 0,
                    decreases stack@.len(),
                {
                    let ghost stack2 = stack@;
                    match stack.pop() {
                        None => {
                            proof {
                                assert(node.subtree_seq() =~= input);
                            }
                            break ;
                        },
                        Some(item) => {
                            proof {
                                assert(stack2.reverse()[0] == item);
                                assert(stack@.reverse() =~= stack2.reverse().drop_first());
                            }
                            if node.height() >= 60000 || count >= 0x7FFF_FFFF {
                                // far beyond any shape this loop can build from a
                                // 32-bit-sized input
                                let ghost stack3 = stack@;
                                let mut give_back = stack;
                                give_back.push(item);
                                proof {
                                    assert(give_back@.reverse() =~= seq![item]
                                        + stack3.reverse());
                                    assert(seq![item] + stack3.reverse()
                                        =~= stack2.reverse());
                                    assert(node.subtree_seq() + give_back@.reverse() =~= input);
                                    assert(node.subtree_seq().len() + give_back@.len()
                                        <= u32::MAX);
                                    assert(node.subtree_seq().len() + give_back@.len()
                                        == input.len());
                                }
                                return Self::rebuild(node, give_back);
                            }
                            let ghost pre = node.subtree_seq();
                            let mut new_node = Box::new(CountNode::new(item));
                            new_node.insert_left(Some(node));
                            node = new_node;
                            count = count + 1;
                            proof {
                                assert(node.subtree_seq() =~= pre + seq![item]);
                                assert(node.subtree_seq() + stack@.reverse() =~= input);
                            }
                            let rcount: u32 = if is_power(count + 1) {
                                count >> 1
                            } else {
                                count
                            };
                            let mut rotate_points: u32 = 1;
                            let ghost cur = node.subtree_seq();
                            loop
                                invariant
                                    node.stats_ok(),
                                    node.subtree_seq() == cur,
                                decreases CountNode::opt_len(node.left_spec()),
                            {
                                if rcount & rotate_points != rotate_points {
                                    break ;
                                }
                                if node.height() >= u16::MAX - 1 {
                                    break ;
                                }
                                if node.lcount() == 0 {
                                    break ;
                                }
                                proof {
                                    (*node).lemma_child_bounds();
                                    if node.left_spec() is Some {
                                        (*node.left_spec().unwrap()).lemma_child_bounds();
                                    }
                                }
                                let _ = node.rotate_right();
                                rotate_points = rotate_points << 1;
                                rotate_points = rotate_points | 1;
                            }
                        },
                    }
                }
                if count >= 0x8000_0000 {
                    // the final-pass threshold arithmetic needs count + 1 to
                    // round up within 32 bits
                    proof {
                        assert(node.subtree_seq() + stack@.reverse() =~= input);
                        assert(node.subtree_seq().len() + stack@.len() <= u32::MAX);
                        assert(node.subtree_seq().len() + stack@.len() == input.len());
                    }
                    return Self::rebuild(node, stack);
                }
                proof {
                    reveal(vstd::arithmetic::power2::is_pow2);
                }
                let balanced_till = exp_floor_log(count + 1) - 1;
                let ghost cur = node.subtree_seq();
                loop
                    invariant
                        node.stats_ok(),
                        node.subtree_seq() == cur,
                        cur == input,
                        stack@.len() == 0,
                        input.len() <= u32::MAX,
                        input == v@,
                    decreases CountNode::opt_len(node.left_spec()),
                {
                    let lc = node.lcount();
                    if lc + 1 <= balanced_till {
                        break ;
                    }
                    if node.height() >= u16::MAX - 1 || lc == 0 {
                        proof {
                            assert(node.subtree_seq() + stack@.reverse() =~= input);
                        }
                        return Self::rebuild(node, stack);
                    }
                    proof {
                        (*node).lemma_child_bounds();
                        if node.left_spec() is Some {
                            (*node.left_spec().unwrap()).lemma_child_bounds();
                        }
                    }
                    let _ = node.rotate_right();
                    match node.detach_right() {
                        None => (),
                        Some(mut r) => {
                            proof {
                                (*node).lemma_child_bounds();
                            }
                            r.fix_right_spine();
                            node.insert_right(Some(r));
                        },
                    }
                }
                let expected = floor_log2(count);
                if node.height() as u32 == expected && node.check_balanced() {
                    proof {
                        assert(node.hgt() == log2_floor(count as int));
                        assert(count as int == input.len());
                    }
                    CountTree(Some(node))
                } else {
                    proof {
                        assert(node.subtree_seq() + stack@.reverse() =~= input);
                        assert(node.subtree_seq().len() + stack@.len() <= u32::MAX);
                        assert(node.subtree_seq().len() + stack@.len() == input.len());
                    }
                    Self::rebuild(node, stack)
                }
            },
        }
    }
}

impl<T> CountNode<T> {
    /// Walk down the right spine, rotating right at every node whose
    /// balance factor exceeds 1; used by the final pass of bulk
    /// construction.
    fn fix_right_spine(&mut self)
        requires
            old(self).stats_ok(),
            old(self).hgt() < u16::MAX,
        ensures
            final(self).stats_ok(),
            final(self).subtree_seq() == old(self).subtree_seq(),
            final(self).hgt() <= old(self).hgt(),
        decreases old(self).subtree_seq().len(),
    {
        let ghost o = *old(self);
        proof {
            o.lemma_child_bounds();
        }
        let bf = self.balance_factor();
        if bf > 1 {
            proof {
                if self.left_spec() is Some {
                    (*self.left_spec().unwrap()).lemma_child_bounds();
                }
            }
            let _ = self.rotate_right();
            match self.detach_right() {
                None => (),
                Some(mut r) => {
                    proof {
                        (*self).lemma_child_bounds();
                    }
                    r.fix_right_spine();
                    self.insert_right(Some(r));
                },
            }
        }
    }
}

/// Borrowing in-order iterator over a `CountTree`.
pub struct Iter<'a, T> {
    inner: crate::iter::Iter<'a, CountNode<T>>,
}

impl<'a, T> Iter<'a, T> {
    /// The values this iterator has not yielded yet, in order.
    pub closed spec fn remaining_seq(&self) -> Seq<T> {
        self.inner.remaining()
    }

    /// Yield a reference to the next element, or `None` at the end.
    pub fn next(&mut self) -> (r: Option<&'a T>)
        ensures
            old(self).remaining_seq().len() == 0 ==> r is None && final(self).remaining_seq()
                == old(self).remaining_seq(),
            old(self).remaining_seq().len() > 0 ==> (r matches Some(v) && *v == old(
                self,
            ).remaining_seq()[0] && final(self).remaining_seq() == old(
                self,
            ).remaining_seq().drop_first()),
    {
        self.inner.next()
    }

    /// Lower and upper bound on the number of elements left.
    pub fn size_hint(&self) -> (r: (usize, Option<usize>))
        ensures
            r.0 == self.remaining_seq().len(),
            r.1 == Some(r.0),
    {
        self.inner.size_hint()
    }
}

/// Consuming in-order iterator over a `CountTree`.
pub struct IntoIter<T> {
    inner: crate::iter::IntoIter<CountNode<T>>,
}

impl<T> IntoIter<T> {
    /// The values this iterator has not yielded yet, in order.
    pub closed spec fn remaining_seq(&self) -> Seq<T> {
        self.inner.remaining()
    }

    /// Yield the next element, or `None` at the end.
    pub fn next(&mut self) -> (r: Option<T>)
        ensures
            old(self).remaining_seq().len() == 0 ==> r is None && final(self).remaining_seq()
                == old(self).remaining_seq(),
            old(self).remaining_seq().len() > 0 ==> (r matches Some(v) && v == old(
                self,
            ).remaining_seq()[0] && final(self).remaining_seq() == old(
                self,
            ).remaining_seq().drop_first()),
    {
        self.inner.next()
    }

    /// Lower and upper bound on the number of elements left.
    pub fn size_hint(&self) -> (r: (usize, Option<usize>))
        ensures
            r.0 == self.remaining_seq().len(),
            r.1 == Some(r.0),
    {
        self.inner.size_hint()
    }
}

impl<T> CountTree<T> {
    /// In-order iteration over references to the elements.
    pub fn iter(&self) -> (it: Iter<'_, T>)
        ensures
            it.remaining_seq() == self@,
    {
        proof {
            use_type_invariant(self);
        }
        let root: Option<&CountNode<T>> = match &self.0 {
            None => None,
            Some(b) => Some(&**b),
        };
        proof {
            CountNode::lemma_opt_model_seq(self.0);
        }
        let inner = crate::iter::Iter::new(root);
        Iter { inner }
    }

    /// In-order iteration over the elements, consuming the tree.
    pub fn into_iter(self) -> (it: IntoIter<T>)
        ensures
            it.remaining_seq() == self@,
    {
        proof {
            use_type_invariant(&self);
        }
        let mut s = self;
        let mut root = None;
        core::mem::swap(&mut root, &mut s.0);
        proof {
            CountNode::lemma_opt_model_seq(root);
        }
        let inner = crate::iter::IntoIter::new(root);
        IntoIter { inner }
    }
}

impl<T: Clone> CountNode<T> {
    /// Copy this subtree: same shape, same cached statistics, and each
    /// value cloned in place.
    fn clone_node(&self) -> (r: CountNode<T>)
        ensures
            crate::gshape(r.tree_model()) == crate::gshape(self.tree_model()),
            r.count_spec() == self.count_spec(),
            r.height_spec() == self.height_spec(),
            r.subtree_seq().len() == self.subtree_seq().len(),
            self.stats_ok() ==> r.stats_ok(),
            self.balanced() ==> r.balanced(),
            forall|i: int|
                0 <= i < self.subtree_seq().len() ==> cloned::<T>(
                    self.subtree_seq()[i],
                    #[trigger] r.subtree_seq()[i],
                ),
        decreases *self,
    {
        let r = CountNode {
            val: self.val.clone(),
            left: match &self.left {
                None => None,
                Some(b) => Some(Box::new((&**b).clone_node())),
            },
            right: match &self.right {
                None => None,
                Some(b) => Some(Box::new((&**b).clone_node())),
            },
            count: self.count,
            height: self.height,
        };
        proof {
            assert(crate::gshape(r.tree_model()) == crate::gshape(self.tree_model()));
            let sl = Self::opt_seq(self.left);
            let sr = Self::opt_seq(self.right);
            let rl = Self::opt_seq(r.left);
            let rr = Self::opt_seq(r.right);
            assert(rl.len() == sl.len() && rr.len() == sr.len());
            assert forall|i: int| 0 <= i < self.subtree_seq().len() implies cloned::<T>(
                self.subtree_seq()[i],
                #[trigger] r.subtree_seq()[i],
            ) by {
                if i < sl.len() {
                    assert(self.subtree_seq()[i] == sl[i]);
                    assert(r.subtree_seq()[i] == rl[i]);
                } else if i == sl.len() {
                    assert(self.subtree_seq()[i] == self.val);
                    assert(r.subtree_seq()[i] == r.val);
                } else {
                    assert(self.subtree_seq()[i] == sr[i - sl.len() - 1]);
                    assert(r.subtree_seq()[i] == rr[i - sl.len() - 1]);
                }
            }
            if self.stats_ok() {
                assert(r.hgt() == self.hgt()) by {
                    Self::lemma_shape_same_hgt(r, *self);
                }
            }
            if self.balanced() {
                Self::lemma_shape_same_hgt(r, *self);
            }
        }
        r
    }
}

impl<T: Clone> Clone for CountTree<T> {
    /// Copy the tree: the copy has the same shape and, position by
    /// position, a value produced by `T::clone` from the one held there.
    fn clone(&self) -> (res: Self)
        ensures
            res@.len() == self@.len(),
            forall|i: int|
                0 <= i < self@.len() ==> cloned::<T>(self@[i], #[trigger] res@[i]),
    {
        proof {
            use_type_invariant(self);
        }
        match &self.0 {
            None => CountTree(None),
            Some(b) => CountTree(Some(Box::new((&**b).clone_node()))),
        }
    }
}

/// State of a `Shrinker`: which candidate it hands out next.
enum ShrinkerState {
    Value,
    Left,
    Right,
    End,
}

/// Produces ever-smaller variants of a tree of `usize` values, for use by
/// property-based test drivers: first the root value alone, then the left
/// subtree, then the right subtree.
pub struct Shrinker {
    inner: CountTree<usize>,
    state: ShrinkerState,
}

impl Shrinker {
    /// The sequence held by the tree being shrunk.
    pub closed spec fn source(&self) -> Seq<usize> {
        self.inner@
    }

    /// How far the shrinker has advanced: 0 before any candidate, 1 after
    /// the root-value candidate, 2 after the left-subtree candidate, 3
    /// once exhausted.
    pub closed spec fn stage(&self) -> int {
        match self.state {
            ShrinkerState::Value => 0,
            ShrinkerState::Left => 1,
            ShrinkerState::Right => 2,
            ShrinkerState::End => 3,
        }
    }

    /// In-order position of the root of the tree being shrunk: the size of
    /// its left subtree, and 0 for the empty tree.
    pub closed spec fn pivot(&self) -> int {
        match self.inner.0 {
            None => 0,
            Some(n) => CountNode::opt_len(n.left_spec()),
        }
    }

    /// Start shrinking a copy of `inner`.
    pub fn new(inner: &CountTree<usize>) -> (s: Shrinker)
        ensures
            s.source() == inner@,
            s.stage() == 0,
    {
        let copy = inner.clone();
        proof {
            assert(copy@ =~= inner@);
        }
        Shrinker { inner: copy, state: ShrinkerState::Value }
    }

    /// The next smaller variant: for a source of more than one element the
    /// candidates are, in order, a tree holding only the source's root
    /// value, a copy of the root's left subtree, a copy of the root's
    /// right subtree, and then `None`; a one-element source yields the
    /// empty tree once; an empty or exhausted shrinker yields `None`.
    /// Every candidate holds strictly fewer elements than the source.
    pub fn next(&mut self) -> (r: Option<CountTree<usize>>)
        ensures
            final(self).source() == old(self).source(),
            final(self).pivot() == old(self).pivot(),
            old(self).source().len() == 0 ==> r is None && final(self).stage() == old(
                self,
            ).stage(),
            old(self).source().len() > 0 ==> ({
                let s = old(self).source();
                let p = old(self).pivot();
                &&& 0 <= p < s.len()
                &&& (old(self).stage() == 0 && s.len() > 1 ==> (r matches Some(t) && t@ == seq![
                    s[p],
                ] && final(self).stage() == 1))
                &&& (old(self).stage() == 0 && s.len() == 1 ==> (r matches Some(t) && t@
                    == Seq::<usize>::empty() && final(self).stage() == 3))
                &&& (old(self).stage() == 1 ==> (r matches Some(t) && t@ == s.take(p)
                    && final(self).stage() == 2))
                &&& (old(self).stage() == 2 ==> (r matches Some(t) && t@ == s.skip(p + 1)
                    && final(self).stage() == 3))
                &&& (old(self).stage() == 3 ==> r is None && final(self).stage() == 3)
                &&& (r matches Some(t) ==> t@.len() < s.len())
            }),
    {
        proof {
            use_type_invariant(&self.inner);
            if self.inner.0 is Some {
                (*self.inner.0.unwrap()).lemma_child_bounds();
            }
        }
        let ghost src = self.inner@;
        let ghost p = self.pivot();
        match &self.inner.0 {
            None => None,
            Some(root) => {
                proof {
                    assert(src =~= CountNode::opt_seq(root.left_spec()) + seq![
                        root.value_spec(),
                    ] + CountNode::opt_seq(root.right_spec()));
                    assert(src[p] == root.value_spec());
                }
                match self.state {
                    ShrinkerState::Value => {
                        let mut ct = CountTree::new();
                        if root.count > 1 {
                            ct.push_back(root.val);
                            self.state = ShrinkerState::Left;
                            proof {
                                assert(ct@ =~= seq![src[p]]);
                            }
                        } else {
                            self.state = ShrinkerState::End;
                        }
                        Some(ct)
                    },
                    ShrinkerState::Left => {
                        self.state = ShrinkerState::Right;
                        let sub: Option<Box<CountNode<usize>>> = match &root.left {
                            None => None,
                            Some(b) => {
                                proof {
                                    assert(root.stats_ok() && root.balanced());
                                    assert(CountNode::opt_stats_ok(root.left_spec()));
                                    assert(CountNode::opt_balanced(root.left_spec()));
                                    assert(b.stats_ok() && b.balanced());
                                }
                                Some(Box::new((&**b).clone_node()))
                            },
                        };
                        proof {
                            assert(CountNode::opt_seq(sub) =~= CountNode::opt_seq(
                                root.left_spec(),
                            ));
                            assert(CountNode::opt_seq(root.left_spec()) =~= src.take(p));
                        }
                        Some(CountTree(sub))
                    },
                    ShrinkerState::Right => {
                        self.state = ShrinkerState::End;
                        let sub: Option<Box<CountNode<usize>>> = match &root.right {
                            None => None,
                            Some(b) => {
                                proof {
                                    assert(root.stats_ok() && root.balanced());
                                    assert(CountNode::opt_stats_ok(root.right_spec()));
                                    assert(CountNode::opt_balanced(root.right_spec()));
                                    assert(b.stats_ok() && b.balanced());
                                }
                                Some(Box::new((&**b).clone_node()))
                            },
                        };
                        proof {
                            assert(CountNode::opt_seq(sub) =~= CountNode::opt_seq(
                                root.right_spec(),
                            ));
                            assert(CountNode::opt_seq(root.right_spec()) =~= src.skip(p + 1));
                        }
                        Some(CountTree(sub))
                    },
                    ShrinkerState::End => None,
                }
            },
        }
    }
}

/// Round trip of positional insertion: in the sequence that `insert(i, v)`
/// leaves behind, position `i` holds exactly `v`, which is what `get(i)`
/// then returns.
pub proof fn lemma_insert_then_get<T>(s: Seq<T>, i: int, v: T)
    requires
        0 <= i <= s.len(),
    ensures
        s.insert(i, v)[i] == v,
{
    s.insert_ensures(i, v);
}

/// Round trip of insertion and removal: removing the position just
/// inserted at restores the starting sequence, and the removal returns the
/// inserted value.
pub proof fn lemma_insert_then_remove<T>(s: Seq<T>, i: int, v: T)
    requires
        0 <= i <= s.len(),
    ensures
        s.insert(i, v).remove(i) == s,
        s.insert(i, v)[i] == v,
{
    s.insert_ensures(i, v);
    s.insert(i, v).remove_ensures(i);
    assert(s.insert(i, v).remove(i) =~= s);
}

/// Neighbor preservation of insertion: inserting at position `i` leaves the
/// value before it in place and shifts the value previously at `i` to
/// position `i + 1`.
pub proof fn lemma_insert_neighbors<T>(s: Seq<T>, i: int, v: T)
    requires
        0 <= i <= s.len(),
    ensures
        i > 0 ==> s.insert(i, v)[i - 1] == s[i - 1],
        i < s.len() ==> s.insert(i, v)[i + 1] == s[i],
{
    s.insert_ensures(i, v);
}

/// Neighbor preservation of removal: removing position `i` leaves the value
/// before it in place, and the value previously at `i + 1` becomes the new
/// value at `i`.
pub proof fn lemma_remove_neighbors<T>(s: Seq<T>, i: int)
    requires
        0 <= i < s.len(),
    ensures
        i > 0 ==> s.remove(i)[i - 1] == s[i - 1],
        i + 1 < s.len() ==> s.remove(i)[i] == s[i + 1],
{
    s.remove_ensures(i);
}

impl<T> crate::BinaryTree for CountTree<T> {
    type Node = CountNode<T>;

    closed spec fn root_spec(&self) -> Option<CountNode<T>> {
        match self.0 {
            None => None,
            Some(b) => Some(*b),
        }
    }

    fn root(&self) -> (r: Option<&CountNode<T>>) {
        proof {
            use_type_invariant(self);
        }
        match &self.0 {
            None => None,
            Some(b) => Some(&**b),
        }
    }
}

} // verus!
