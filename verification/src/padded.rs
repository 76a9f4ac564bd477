//! A wrapper for message types that should have cache lines to themselves.
//!
//! Two messages that share a cache line slow each other down when one is
//! written while the other is read. The wrapper marks such a type and holds
//! the value. It does not align it: the type with the alignment of a cache line
//! belongs to the program that lays a ring out, and converts to this one and
//! back.

use core::ops::{Deref, DerefMut};
use vstd::prelude::*;
use vstd::std_specs::convert::FromSpecImpl;

verus! {

/// A value that should have cache lines to itself.
#[derive(Clone, Copy, Debug, PartialEq, Eq, PartialOrd, Ord, Hash)]
pub struct Padded<T>(T);

impl<T> Padded<T> {
    /// The wrapped value.
    pub closed spec fn value(&self) -> T {
        self.0
    }

    /// Wrap a value.
    pub fn new(value: T) -> (r: Self)
        ensures
            r.value() == value,
    {
        Padded(value)
    }

    /// The wrapped value.
    pub fn into_inner(self) -> (r: T)
        ensures
            r == self.value(),
    {
        self.0
    }
}

impl<T: Default> Default for Padded<T> {
    fn default() -> (r: Self)
        ensures
            call_ensures(T::default, (), r.value()),
    {
        Padded(T::default())
    }
}

impl<T> Deref for Padded<T> {
    type Target = T;

    fn deref(&self) -> (r: &T)
        ensures
            *r == self.value(),
    {
        &self.0
    }
}

impl<T> DerefMut for Padded<T> {
    fn deref_mut(&mut self) -> (r: &mut T)
        ensures
            *r == old(self).value(),
            *final(r) == final(self).value(),
    {
        &mut self.0
    }
}

impl<T> FromSpecImpl<T> for Padded<T> {
    closed spec fn obeys_from_spec() -> bool {
        true
    }

    closed spec fn from_spec(value: T) -> Self {
        Padded(value)
    }
}

impl<T> From<T> for Padded<T> {
    fn from(value: T) -> (r: Self)
        ensures
            r.value() == value,
    {
        Padded(value)
    }
}

} // verus!
