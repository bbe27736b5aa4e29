//! Pointer unboxing.

use vstd::prelude::*;

verus! {

/// Trait specifying unboxing capability of a pointer type: the pointer owns
/// its pointee exclusively and can be consumed back into the bare value.
pub trait Unbox: Sized {
    type Target;

    /// The value behind the pointer.
    spec fn target_spec(&self) -> Self::Target;

    /// Consume the pointer and return the value it held.
    fn unbox(self) -> (r: Self::Target)
        ensures
            r == self.target_spec(),
    ;
}

impl<T> Unbox for Box<T> {
    type Target = T;

    open spec fn target_spec(&self) -> T {
        **self
    }

    fn unbox(self) -> (r: T) {
        *self
    }
}

} // verus!
