//! A value, or a reference to one, that can be turned into an owned value.
use vstd::prelude::*;

verus! {

/// A `T`, or a reference to a `T`: either way an owned `T` can be had.
pub trait RefOrOwned<'a, T>: Sized {
    /// The owned value: the value itself, or a clone of what is referenced.
    fn into_owned(self) -> T;
}

impl<'a, T: Clone> RefOrOwned<'a, T> for &'a T {
    fn into_owned(self) -> (r: T)
        ensures
            vstd::pervasive::cloned(*self, r),
    {
        self.clone()
    }
}

impl<'a, T> RefOrOwned<'a, T> for T {
    fn into_owned(self) -> (r: T)
        ensures
            r == self,
    {
        self
    }
}

} // verus!
