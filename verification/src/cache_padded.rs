//! A wrapper for shared words that should have cache lines to themselves. It
//! holds the value and does not align it; the aligned type belongs to the
//! program that lays a ring out.

use core::ops::{Deref, DerefMut};
use vstd::prelude::*;

verus! {

/// A value that should not share a cache line with another.
pub struct CachePadded<T> {
    value: T,
}

impl<T> CachePadded<T> {
    /// The wrapped value.
    pub closed spec fn inner(&self) -> T {
        self.value
    }

    /// Wrap a value.
    pub fn new(value: T) -> (r: Self)
        ensures
            r.inner() == value,
    {
        CachePadded { value }
    }
}

impl<T> Deref for CachePadded<T> {
    type Target = T;

    fn deref(&self) -> (r: &T)
        ensures
            *r == self.inner(),
    {
        &self.value
    }
}

impl<T> DerefMut for CachePadded<T> {
    fn deref_mut(&mut self) -> (r: &mut T)
        ensures
            *r == old(self).inner(),
            *final(r) == final(self).inner(),
    {
        &mut self.value
    }
}

impl<T: Default> Default for CachePadded<T> {
    fn default() -> (r: Self)
        ensures
            call_ensures(T::default, (), r.inner()),
    {
        CachePadded { value: T::default() }
    }
}

} // verus!
