//! The gating ring of byte messages.

use vstd::prelude::*;

verus! {

/// A ring of bytes between one producer and many consumers, each of which
/// holds the producer back. Its halves are the
/// [`GateProducer`](crate::gate::GateProducer) and the
/// [`GateConsumer`](crate::gate::GateConsumer)s of its cursors.
pub struct BytesRingBuffer;

} // verus!
