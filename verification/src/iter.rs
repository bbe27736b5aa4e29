//! Explicit-stack in-order traversal iterators.
//!
//! Both iterators walk a tree with an explicit stack held in a `Vec`, never
//! through recursion, so they stay safe on trees whose height far exceeds
//! the call-stack limit (an unbalanced chain of hundreds of thousands of
//! nodes, say). They are generic over the [`Node`](crate::Node) and
//! [`NodeMut`](crate::NodeMut) traits and are reusable across all
//! node-based trees in this crate.

use crate::gright;
use crate::gseq;
use crate::gsize;
use crate::gval;
use crate::Node;
use crate::NodeMut;
use vstd::prelude::*;

verus! {

/// The sequence of values behind a sequence of references.
pub open spec fn refs_to_vals<'a, V>(s: Seq<&'a V>) -> Seq<V> {
    Seq::new(s.len(), |i: int| *s[i])
}

/// The values still owed by a borrowing traversal stack, top frame first:
/// each frame contributes its node's value followed by that node's right
/// subtree.
pub open spec fn ref_stack_seq<'a, T: Node>(s: Seq<&'a T>) -> Seq<T::Value>
    decreases s.len(),
{
    if s.len() == 0 {
        Seq::empty()
    } else {
        (seq![gval(s.last().model())] + gseq(gright(s.last().model()))) + ref_stack_seq(
            s.drop_last(),
        )
    }
}

/// Termination measure of a borrowing traversal.
pub open spec fn ref_stack_weight<'a, T: Node>(s: Seq<&'a T>) -> nat
    decreases s.len(),
{
    if s.len() == 0 {
        0
    } else {
        1 + 2 * gsize(gright(s.last().model())) + ref_stack_weight(s.drop_last())
    }
}

/// The values still owed by a consuming traversal stack, top frame first.
/// The left subtree of a stacked node has already been detached, so each
/// frame contributes its node's value followed by its right subtree.
pub open spec fn box_stack_seq<T: Node>(s: Seq<Box<T>>) -> Seq<T::Value>
    decreases s.len(),
{
    if s.len() == 0 {
        Seq::empty()
    } else {
        (seq![gval(s.last().model())] + gseq(gright(s.last().model()))) + box_stack_seq(
            s.drop_last(),
        )
    }
}

/// Termination measure of a consuming traversal.
pub open spec fn box_stack_weight<T: Node>(s: Seq<Box<T>>) -> nat
    decreases s.len(),
{
    if s.len() == 0 {
        0
    } else {
        1 + 2 * gsize(gright(s.last().model())) + box_stack_weight(s.drop_last())
    }
}

/// In-order sequence of an optional subtree, given by reference.
pub open spec fn opt_ref_seq<'a, T: Node>(o: Option<&'a T>) -> Seq<T::Value> {
    match o {
        Some(n) => gseq(n.model()),
        None => Seq::empty(),
    }
}

/// In-order sequence of an optional owned subtree.
pub open spec fn opt_box_seq<T: Node>(o: Option<Box<T>>) -> Seq<T::Value> {
    match o {
        Some(n) => gseq(n.model()),
        None => Seq::empty(),
    }
}

/// Number of values in an optional subtree, given by reference.
pub open spec fn opt_ref_size<'a, T: Node>(o: Option<&'a T>) -> nat {
    match o {
        Some(n) => gsize(n.model()),
        None => 0,
    }
}

/// Number of values in an optional owned subtree.
pub open spec fn opt_box_size<T: Node>(o: Option<Box<T>>) -> nat {
    match o {
        Some(n) => gsize(n.model()),
        None => 0,
    }
}

/// Borrowing in-order iterator over any [`Node`]-based tree.
///
/// The whole walk happens up front, with an explicit stack; the collected
/// references are then handed out one at a time.
pub struct Iter<'a, T: Node + 'a> {
    vals: Vec<&'a T::Value>,
    pos: usize,
}

impl<'a, T: Node + 'a> Iter<'a, T> {
    /// The cursor never runs past the collected values.
    #[verifier::type_invariant]
    spec fn cursor_ok(self) -> bool {
        self.pos <= self.vals@.len()
    }

    /// The values this iterator has not yielded yet, in order.
    pub closed spec fn remaining(&self) -> Seq<T::Value> {
        refs_to_vals(self.vals@).skip(self.pos as int)
    }

    /// Build an iterator over the subtree rooted at `root`.
    pub fn new(root: Option<&'a T>) -> (it: Iter<'a, T>)
        ensures
            it.remaining() == opt_ref_seq(root),
    {
        let mut vals: Vec<&'a T::Value> = Vec::new();
        let mut stack: Vec<&'a T> = Vec::new();
        let mut cur: Option<&'a T> = root;
        let ghost total: Seq<T::Value> = opt_ref_seq(root);
        loop
            invariant
                refs_to_vals(vals@) + opt_ref_seq(cur) + ref_stack_seq(stack@) == total,
            ensures
                refs_to_vals(vals@) == total,
            decreases 2 * opt_ref_size(cur) + ref_stack_weight(stack@),
        {
            let ghost stack0 = stack@;
            match cur {
                Some(n) => {
                    proof {
                        n.lemma_model_branch();
                    }
                    cur = n.left();
                    stack.push(n);
                    proof {
                        assert(stack@.drop_last() =~= stack0);
                        assert(gseq(n.model()) == gseq(crate::gleft(n.model())) + seq![
                            gval(n.model()),
                        ] + gseq(gright(n.model())));
                        assert(refs_to_vals(vals@) + opt_ref_seq(cur) + ref_stack_seq(stack@)
                            =~= total);
                        assert(gsize(n.model()) == 1 + gsize(crate::gleft(n.model())) + gsize(
                            gright(n.model()),
                        ));
                    }
                },
                None => {
                    match stack.pop() {
                        None => {
                            proof {
                                assert(refs_to_vals(vals@) =~= total);
                            }
                            break ;
                        },
                        Some(n) => {
                            proof {
                                assert(stack0.last() == n);
                                assert(stack0.drop_last() =~= stack@);
                                n.lemma_model_branch();
                            }
                            let ghost vals0 = vals@;
                            vals.push(n.value());
                            cur = n.right();
                            proof {
                                assert(refs_to_vals(vals@) =~= refs_to_vals(vals0) + seq![
                                    gval(n.model()),
                                ]);
                                assert(refs_to_vals(vals@) + opt_ref_seq(cur) + ref_stack_seq(
                                    stack@,
                                ) =~= total);
                            }
                        },
                    }
                },
            }
        }
        proof {
            assert(refs_to_vals(vals@) =~= total);
            assert(refs_to_vals(vals@).skip(0) =~= total);
        }
        Iter { vals, pos: 0 }
    }

    /// Yield the next value, or `None` when the walk is over.
    pub fn next(&mut self) -> (r: Option<&'a T::Value>)
        ensures
            old(self).remaining().len() == 0 ==> r is None && final(self).remaining() == old(
                self,
            ).remaining(),
            old(self).remaining().len() > 0 ==> (r matches Some(v) && *v == old(
                self,
            ).remaining()[0] && final(self).remaining() == old(self).remaining().drop_first()),
    {
        proof {
            use_type_invariant(&*self);
        }
        if self.pos < self.vals.len() {
            let v = self.vals[self.pos];
            self.pos = self.pos + 1;
            proof {
                assert(final(self).remaining() =~= old(self).remaining().drop_first());
            }
            Some(v)
        } else {
            None
        }
    }

    /// How many values are left.
    pub fn size_hint(&self) -> (r: (usize, Option<usize>))
        ensures
            r.0 == self.remaining().len(),
            r.1 == Some(r.0),
    {
        proof {
            use_type_invariant(self);
        }
        let n = self.vals.len() - self.pos;
        (n, Some(n))
    }
}

/// Consuming in-order iterator over any [`NodeMut`]-based tree.
///
/// `new` tears the whole tree down with an explicit stack, detaching each
/// node's subtrees before the node itself is consumed, so no drop or visit
/// ever recurses; the collected values are then handed out one at a time.
pub struct IntoIter<T: NodeMut> {
    /// The values not yet yielded, in reverse order (the next one last).
    vals: Vec<T::Value>,
}

impl<T: NodeMut> IntoIter<T> {
    /// The values this iterator has not yielded yet, in order.
    pub closed spec fn remaining(&self) -> Seq<T::Value> {
        self.vals@.reverse()
    }

    /// Build an iterator consuming the subtree rooted at `root`.
    pub fn new(root: Option<Box<T>>) -> (it: IntoIter<T>)
        requires
            root matches Some(n) ==> n.inv(),
        ensures
            it.remaining() == opt_box_seq(root),
    {
        let ghost total: Seq<T::Value> = opt_box_seq(root);
        let mut vals: Vec<T::Value> = Vec::new();
        let mut stack: Vec<Box<T>> = Vec::new();
        let mut cur: Option<Box<T>> = root;
        loop
            invariant
                cur matches Some(n) ==> n.inv(),
                forall|i: int| 0 <= i < stack@.len() ==> #[trigger] stack@[i].inv(),
                vals@ + opt_box_seq(cur) + box_stack_seq(stack@) == total,
            ensures
                vals@ == total,
            decreases 2 * opt_box_size(cur) + box_stack_weight(stack@),
        {
            let ghost stack0 = stack@;
            match cur {
                Some(mut n) => {
                    let ghost m0 = n.model();
                    proof {
                        n.lemma_model_branch();
                    }
                    cur = n.detach_left();
                    stack.push(n);
                    proof {
                        assert(stack@.drop_last() =~= stack0);
                        assert(gseq(m0) == gseq(crate::gleft(m0)) + seq![gval(m0)] + gseq(
                            gright(m0),
                        ));
                        assert(vals@ + opt_box_seq(cur) + box_stack_seq(stack@) =~= total);
                        assert(gsize(m0) == 1 + gsize(crate::gleft(m0)) + gsize(gright(m0)));
                    }
                },
                None => {
                    match stack.pop() {
                        None => {
                            proof {
                                assert(vals@ =~= total);
                            }
                            break ;
                        },
                        Some(mut n) => {
                            proof {
                                assert(stack0.last() == n);
                                assert(stack0.drop_last() =~= stack@);
                                n.lemma_model_branch();
                            }
                            let ghost m0 = n.model();
                            cur = n.detach_right();
                            let ghost vals0 = vals@;
                            vals.push((*n).value_owned());
                            proof {
                                assert(vals@ =~= vals0 + seq![gval(m0)]);
                                assert(vals@ + opt_box_seq(cur) + box_stack_seq(stack@)
                                    =~= total);
                            }
                        },
                    }
                },
            }
        }
        proof {
            assert(vals@ =~= total);
        }
        // reverse, so that values can be moved out from the back
        let mut rev: Vec<T::Value> = Vec::new();
        loop
            invariant
                vals@ + rev@.reverse() == total,
            ensures
                rev@.reverse() == total,
            decreases vals@.len(),
        {
            let ghost rev0 = rev@;
            match vals.pop() {
                None => {
                    proof {
                        assert(rev@.reverse() =~= total);
                    }
                    break ;
                },
                Some(v) => {
                    rev.push(v);
                    proof {
                        assert(rev@.reverse() =~= seq![v] + rev0.reverse());
                        assert(vals@ + rev@.reverse() =~= total);
                    }
                },
            }
        }
        proof {
            assert(rev@.reverse() =~= total);
        }
        IntoIter { vals: rev }
    }

    /// Yield the next value, or `None` when the walk is over.
    pub fn next(&mut self) -> (r: Option<T::Value>)
        ensures
            old(self).remaining().len() == 0 ==> r is None && final(self).remaining() == old(
                self,
            ).remaining(),
            old(self).remaining().len() > 0 ==> (r matches Some(v) && v == old(
                self,
            ).remaining()[0] && final(self).remaining() == old(self).remaining().drop_first()),
    {
        let ghost rem0 = self.remaining();
        match self.vals.pop() {
            None => {
                proof {
                    assert(rem0.len() == 0);
                }
                None
            },
            Some(v) => {
                proof {
                    assert(v == rem0[0]);
                    assert(self.vals@.reverse() =~= rem0.drop_first());
                }
                Some(v)
            },
        }
    }

    /// How many values are left.
    pub fn size_hint(&self) -> (r: (usize, Option<usize>))
        ensures
            r.0 == self.remaining().len(),
            r.1 == Some(r.0),
    {
        let n = self.vals.len();
        (n, Some(n))
    }
}

} // verus!
