//! Exclusive access to state that is shared by the whole kernel.
use vstd::prelude::*;

verus! {

/// A cell for a value that the whole kernel shares on a single core. Access
/// to the value is exclusive: while a handle to it is alive, no other can
/// be had.
pub struct UPSafeCell<T> {
    inner: T,
}

impl<T> View for UPSafeCell<T> {
    type V = T;

    closed spec fn view(&self) -> T {
        self.inner
    }
}

impl<T> UPSafeCell<T> {
    /// A cell that holds `value`.
    pub fn new(value: T) -> (r: Self)
        ensures
            r@ == value,
    {
        UPSafeCell { inner: value }
    }

    /// The value of the cell, to read and to change.
    pub fn exclusive_access(&mut self) -> (r: &mut T)
        ensures
            *r == old(self)@,
            final(self)@ == *final(r),
    {
        &mut self.inner
    }

    /// Takes the value out of the cell.
    pub fn into_inner(self) -> (r: T)
        ensures
            r == self@,
    {
        self.inner
    }
}

} // verus!
