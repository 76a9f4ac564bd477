//! The two-party ring of byte messages.

use vstd::prelude::*;

verus! {

/// A ring of bytes between one producer and one consumer. Its halves are the
/// [`ProducerCore`](crate::cursor::ProducerCore) and the
/// [`ConsumerCore`](crate::cursor::ConsumerCore) of its cursors.
pub struct BytesRingBuffer;

} // verus!
