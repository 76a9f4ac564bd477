//! Single-producer ring buffers, verified.
//!
//! One producer hands messages to one or many consumers through a ring of a
//! fixed capacity, a power of two. The rings differ in what a message is, a
//! value of one type or bytes of any length, and in what happens to a consumer
//! that is too slow.
//!
//! | Messages | The producer waits | The consumer loses | Both kinds |
//! | --- | --- | --- | --- |
//! | Values | [`spmc`] | [`broadcast`] | [`anchored`] |
//! | Bytes | [`spmc_bytes`] | [`broadcast_bytes`] | [`anchored_bytes`] |
//!
//! A ring is a plain value that its handles share: every operation takes the
//! ring beside the handle. The contracts say what an operation does to both.
//! Operations that wait state what they wait for, and a function to poll it.
//!
//! # The parts
//!
//! - [`arith`], [`cursor`]: cursors that only grow, and the two-party engine.
//! - [`registry`], [`gate`]: who holds the producer back, and by how much.
//! - [`handler`]: what a batch of messages is handed to.
//! - [`seqlock`], [`stamp`]: slots with generations, and why a copy that passes
//!   its check is never torn.
//! - [`atomic_copy`], [`frames`], [`bytelog`]: messages of any length in a ring
//!   of bytes.
//! - [`region`], [`create`], [`attach`], [`table`]: rings in shared memory,
//!   their layout, leases and consumer tables.
//! - [`shm`], [`shm_gating`], [`shm_lossy`], [`gate_shm`]: making such rings,
//!   attaching to them and taking them over.
//! - [`sharing`]: what the processes that share a ring can rely on.
//! - [`shm_slots`], [`shm_elems`], [`shm_dense`], [`region_lanes`],
//!   [`shm_bytes`], [`shm_anchors`]: messages in such rings.
//! - [`delivery`]: what the rings promise over runs of any length.

pub mod anchored;
pub mod anchored_bytes;
pub mod arith;
pub mod atomic_copy;
pub mod attach;
pub mod broadcast;
pub mod broadcast_bytes;
pub mod bytelog;
pub mod cache_padded;
pub mod create;
pub mod cursor;
pub mod delivery;
pub mod frames;
pub mod gate;
pub mod gate_shm;
pub mod handler;
pub mod padded;
pub mod region;
pub mod region_lanes;
pub mod registry;
pub mod seqlock;
pub mod sharing;
pub mod shm;
pub mod shm_anchors;
pub mod shm_bytes;
pub mod shm_dense;
pub mod shm_elems;
pub mod shm_gating;
pub mod shm_lossy;
pub mod shm_slots;
pub mod spmc;
pub mod spmc_bytes;
pub mod spsc;
pub mod spsc_bytes;
pub mod stamp;
pub mod table;
pub mod text;
pub mod wait;

pub use broadcast::NoUninit;
pub use padded::Padded;
pub use shm::ShmItem;
pub use spsc::RingBuffer;
pub use spsc_bytes::BytesRingBuffer;
pub use wait::YieldWait;
