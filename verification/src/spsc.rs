//! The two-party ring of elements.

use vstd::prelude::*;

verus! {

/// A ring of `T` between one producer and one consumer. Its halves are the
/// [`ProducerCore`](crate::cursor::ProducerCore) and the
/// [`ConsumerCore`](crate::cursor::ConsumerCore) of its cursors.
pub struct RingBuffer<T> {
    pub element: core::marker::PhantomData<T>,
}

} // verus!
