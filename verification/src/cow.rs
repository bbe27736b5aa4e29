//! Copy-on-Write pointers.
//!
//! Thin wrappers around the standard library ref-counted pointers, intended
//! as shared-ownership storage for tree snapshots.

use std::rc::Rc;
use std::sync::Arc;
use vstd::prelude::*;

verus! {

/// A `Rc` wrapper for single-threaded structural sharing.
pub struct RcCow<T>(pub Rc<T>);

impl<T: Clone> RcCow<T> {
    /// Wrap `value` in a fresh reference-counted allocation.
    pub fn new(value: T) -> (r: RcCow<T>)
        ensures
            r.0 == value,
    {
        RcCow(Rc::new(value))
    }
}

/// An `Arc` wrapper for thread-safe structural sharing.
pub struct ArcCow<T>(pub Arc<T>);

impl<T: Clone> ArcCow<T> {
    /// Wrap `value` in a fresh atomically reference-counted allocation.
    pub fn new(value: T) -> (r: ArcCow<T>)
        ensures
            r.0 == value,
    {
        ArcCow(Arc::new(value))
    }
}

} // verus!
