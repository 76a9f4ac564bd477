//! Shared-memory rings that hold nobody back: making one, attaching to it, and
//! taking over from a producer that is gone.
//!
//! Only the producer has a role. Consumers read, take no lease and leave no
//! trace; nothing has to be reset for them.

use crate::attach::{lossy_open, open_bcast_region, BcastOpened};
use crate::broadcast::{default_slack, slack_of, NoUninit, Producer};
use crate::broadcast_bytes::BytesProducer;
use crate::bytelog::ByteReader;
use crate::create::{create_bcast_region, lossy_region};
use crate::cursor::{round_capacity, rounded};
use crate::region::{
    layout_len, len_result, read_u64, store_u64, word, words_for, ShmError,
    BCAST_BYTES_BUFFER_OFFSET, BUFFER_OFFSET, KIND_BCAST_BYTES, KIND_BCAST_ELEMS, OFF_CLOSED,
    OFF_PRODUCER_LEASE, OFF_WRITE_CURSOR,
};
use crate::seqlock::SlotReader;
use crate::shm::{
    check_slot_type, elem_of, elem_type, role_result, sized, slot_fault, stride_of, take_role,
    ShmItem,
};
use crate::shm_gating::{bytes_heal_on_attach, floor_of, healed};
use crate::table::{release_lease, Role};
use vstd::prelude::*;

verus! {

/// The shared-memory side of a lossy producer.
#[derive(Clone, Copy)]
pub struct BcastProducerAnchor {
    /// The token in the producer's lease.
    pub token: u64,
    /// The process that made the handle. A copy that another process inherited
    /// has the same token and must not tear anything down.
    pub owner_pid: u32,
}

impl BcastProducerAnchor {
    /// Whether the producer's lease is still held by this handle.
    pub fn owns_lease(&self, region: &[u64]) -> (r: bool)
        requires
            region@.len() >= 48,
        ensures
            r == (word(region@, OFF_PRODUCER_LEASE as int) == self.token),
    {
        read_u64(region, OFF_PRODUCER_LEASE) == self.token
    }

    /// Whether a process made this handle.
    pub fn owned_by(&self, pid: u32) -> (r: bool)
        ensures
            r == (pid == self.owner_pid),
    {
        pid == self.owner_pid
    }

    /// End a session: everything pushed is published (`tail` is the producer's
    /// own count), the ring is closed, and the lease is released. A copy in
    /// another process, or a handle whose role was taken, changes nothing.
    pub fn teardown(self, region: &mut [u64], pid: u32, tail: u64)
        requires
            old(region)@.len() >= 48,
        ensures
            final(region)@ == (if pid == self.owner_pid && word(
                old(region)@,
                OFF_PRODUCER_LEASE as int,
            ) == self.token {
                old(region)@.update(16, tail).update(17, 1).update(5, 0)
            } else {
                old(region)@
            }),
    {
        if !self.owned_by(pid) {
            return;
        }
        if self.owns_lease(region) {
            store_u64(region, OFF_WRITE_CURSOR, tail);
            store_u64(region, OFF_CLOSED, 1);
        }
        release_lease(region, Role::Producer, self.token);
    }
}

/// What making a lossy ring comes to: the region, or the error.
pub open spec fn create_result(
    before: Seq<u64>,
    kind: u32,
    capacity: usize,
    unit_size: usize,
    stride: usize,
    buffer_offset: usize,
    slack: u64,
    token: u64,
) -> Result<Seq<u64>, ShmError> {
    match len_result(layout_len(capacity as int, stride as int, buffer_offset as int, 0)) {
        Err(e) => Err(e),
        Ok(_) => Ok(lossy_region(before, kind, capacity, unit_size, stride, slack, token)),
    }
}

/// The outcome of making a lossy ring: the producer starts at zero and holds
/// the role.
pub open spec fn created<P>(
    before: Seq<u64>,
    after: Seq<u64>,
    made: Result<Seq<u64>, ShmError>,
    producer: P,
    token: u64,
    pid: u32,
    r: Result<(P, BcastProducerAnchor), ShmError>,
) -> bool {
    match made {
        Err(e) => r is Err && r->Err_0 == e && after == before,
        Ok(region) => {
            &&& after == region
            &&& r == Ok::<(P, BcastProducerAnchor), ShmError>(
                (producer, BcastProducerAnchor { token, owner_pid: pid }),
            )
        },
    }
}

/// The outcome of taking the producer's role of a lossy ring: the ring is open
/// again, its counters are put in order where it carries bytes, and the
/// producer resumes at the published tail.
pub open spec fn attached<P>(
    before: Seq<u64>,
    after: Seq<u64>,
    opened: Result<BcastOpened, ShmError>,
    bytes: bool,
    producer: spec_fn(usize) -> P,
    token: u64,
    force: bool,
    pid: u32,
    r: Result<(P, BcastProducerAnchor), ShmError>,
) -> bool {
    match opened {
        Err(e) => r is Err && r->Err_0 == e && after == before,
        Ok(o) => match role_result(before, Role::Producer, o.generation, token, force) {
            Err(e) => r is Err && r->Err_0 == e && after == before,
            Ok(_) => {
                let opened = before.update(5, token).update(17, 0);
                &&& after == if bytes {
                    healed(opened)
                } else {
                    opened
                }
                &&& r == Ok::<(P, BcastProducerAnchor), ShmError>(
                    (producer(o.capacity), BcastProducerAnchor { token, owner_pid: pid }),
                )
            },
        },
    }
}

fn take_producer(
    region: &mut [u64],
    opened: &BcastOpened,
    token: u64,
    force: bool,
    pid: u32,
) -> (r: Result<BcastProducerAnchor, ShmError>)
    requires
        old(region)@.len() >= 48,
        token != 0,
    ensures
        match role_result(old(region)@, Role::Producer, opened.generation, token, force) {
            Err(e) => r == Err::<BcastProducerAnchor, ShmError>(e) && final(region)@ == old(
                region,
            )@,
            Ok(_) => {
                &&& r == Ok::<BcastProducerAnchor, ShmError>(
                    BcastProducerAnchor { token, owner_pid: pid },
                )
                &&& final(region)@ == old(region)@.update(5, token).update(17, 0)
            },
        },
{
    match take_role(region, Role::Producer, opened.generation, token, force) {
        Err(e) => Err(e),
        Ok(token) => {
            store_u64(region, OFF_CLOSED, 0);
            Ok(BcastProducerAnchor { token, owner_pid: pid })
        },
    }
}

/// A producer that resumes at the published tail.
pub open spec fn resuming(region: Seq<u64>, capacity: usize) -> Producer {
    Producer {
        mask: (capacity - 1) as u64,
        next_seq: word(region, OFF_WRITE_CURSOR as int),
        tail_batch: 1,
        unpublished: 0,
    }
}

impl Producer {
    /// The private side of a producer that takes a region over.
    pub fn from_shm(region: &[u64], capacity: usize) -> (r: Self)
        requires
            region@.len() >= 48,
            capacity > 0,
        ensures
            r == resuming(region@, capacity),
    {
        Producer {
            mask: (capacity - 1) as u64,
            next_seq: read_u64(region, OFF_WRITE_CURSOR),
            tail_batch: 1,
            unpublished: 0,
        }
    }
}

/// Opening a lossy ring of elements.
pub open spec fn opened_elems<T: ShmItem>(region: Seq<u64>, file_len: u64) -> Result<
    BcastOpened,
    ShmError,
> {
    match slot_fault(elem_of::<T>()) {
        Some(e) => Err(e),
        None => lossy_open(
            region,
            file_len,
            KIND_BCAST_ELEMS,
            elem_of::<T>().size,
            stride_of(elem_of::<T>()) as usize,
            BUFFER_OFFSET,
            1,
            1,
        ),
    }
}

fn open_bcast_elems<T: ShmItem>(region: &[u64], file_len: u64) -> (r: Result<BcastOpened, ShmError>)
    requires
        words_for(file_len as int) <= region@.len(),
    ensures
        r == opened_elems::<T>(region@, file_len),
        r matches Ok(o) ==> o.capacity > 0 && region@.len() >= 48,
{
    let stride: usize = match check_slot_type(elem_type::<T>()) {
        Err(e) => return Err(e),
        Ok(stride) => stride,
    };
    open_bcast_region(
        region,
        file_len,
        KIND_BCAST_ELEMS,
        elem_type::<T>().size,
        stride,
        BUFFER_OFFSET,
        1,
        1,
    )
}

impl<T: ShmItem + NoUninit> crate::broadcast::RingBuffer<T> {
    /// Make a ring with the default slack and take the producer's role.
    pub fn create_shm(region: &mut [u64], min_capacity: usize, token: u64, pid: u32) -> (r: Result<
        (Producer, BcastProducerAnchor),
        ShmError,
    >)
        requires
            0 < min_capacity <= usize::MAX / 2 + 1,
            token != 0,
            slot_fault(elem_of::<T>()) is None ==> sized(
                old(region)@,
                rounded(min_capacity as int, 1),
                stride_of(elem_of::<T>()),
                BUFFER_OFFSET as int,
                0,
            ),
        ensures
            match slot_fault(elem_of::<T>()) {
                Some(e) => r is Err && r->Err_0 == e && final(region)@ == old(region)@,
                None => created(
                    old(region)@,
                    final(region)@,
                    create_result(
                        old(region)@,
                        KIND_BCAST_ELEMS,
                        rounded(min_capacity as int, 1) as usize,
                        elem_of::<T>().size,
                        stride_of(elem_of::<T>()) as usize,
                        BUFFER_OFFSET,
                        slack_of(rounded(min_capacity as int, 1)) as u64,
                        token,
                    ),
                    fresh_producer(rounded(min_capacity as int, 1) as usize),
                    token,
                    pid,
                    r,
                ),
            },
    {
        proof {
            crate::arith::lemma_next_pow2(min_capacity as int);
        }
        let capacity: usize = round_capacity(min_capacity, 1);
        let slack: u64 = default_slack(capacity as u64);
        Self::create_shm_with_slack(region, min_capacity, slack as usize, token, pid)
    }

    /// Make a ring with an explicit slack, which every consumer of the ring
    /// takes over; an error where it is not below the capacity.
    pub fn create_shm_with_slack(
        region: &mut [u64],
        min_capacity: usize,
        slack: usize,
        token: u64,
        pid: u32,
    ) -> (r: Result<(Producer, BcastProducerAnchor), ShmError>)
        requires
            0 < min_capacity <= usize::MAX / 2 + 1,
            token != 0,
            slot_fault(elem_of::<T>()) is None ==> sized(
                old(region)@,
                rounded(min_capacity as int, 1),
                stride_of(elem_of::<T>()),
                BUFFER_OFFSET as int,
                0,
            ),
        ensures
            match slot_fault(elem_of::<T>()) {
                Some(e) => r is Err && r->Err_0 == e && final(region)@ == old(region)@,
                None => if slack >= rounded(min_capacity as int, 1) {
                    r is Err && r->Err_0 == ShmError::SlackTooLarge && final(region)@ == old(
                        region,
                    )@
                } else {
                    created(
                        old(region)@,
                        final(region)@,
                        create_result(
                            old(region)@,
                            KIND_BCAST_ELEMS,
                            rounded(min_capacity as int, 1) as usize,
                            elem_of::<T>().size,
                            stride_of(elem_of::<T>()) as usize,
                            BUFFER_OFFSET,
                            slack as u64,
                            token,
                        ),
                        fresh_producer(rounded(min_capacity as int, 1) as usize),
                        token,
                        pid,
                        r,
                    )
                },
            },
    {
        let stride: usize = match check_slot_type(elem_type::<T>()) {
            Err(e) => return Err(e),
            Ok(stride) => stride,
        };
        proof {
            crate::arith::lemma_next_pow2(min_capacity as int);
        }
        let capacity: usize = round_capacity(min_capacity, 1);
        if slack >= capacity {
            return Err(ShmError::SlackTooLarge);
        }
        match create_bcast_region(
            region,
            KIND_BCAST_ELEMS,
            capacity,
            elem_type::<T>().size,
            stride,
            BUFFER_OFFSET,
            slack as u64,
            token,
        ) {
            Err(e) => Err(e),
            Ok(()) => {
                proof {
                    assert(capacity * stride >= 0) by (nonlinear_arith)
                        requires
                            capacity >= 0,
                            stride >= 0,
                    ;
                }
                let producer = Producer::from_shm(region, capacity);
                Ok((producer, BcastProducerAnchor { token, owner_pid: pid }))
            },
        }
    }

    /// Attach as the producer; refused while the role is held. A ring that was
    /// closed is open again.
    pub fn attach_shm_producer(region: &mut [u64], file_len: u64, token: u64, pid: u32) -> (r: Result<
        (Producer, BcastProducerAnchor),
        ShmError,
    >)
        requires
            words_for(file_len as int) <= old(region)@.len(),
            token != 0,
        ensures
            attached(
                old(region)@,
                final(region)@,
                opened_elems::<T>(old(region)@, file_len),
                false,
                |capacity: usize| resuming(old(region)@, capacity),
                token,
                false,
                pid,
                r,
            ),
    {
        let opened = match open_bcast_elems::<T>(region, file_len) {
            Err(e) => return Err(e),
            Ok(opened) => opened,
        };
        match take_producer(region, &opened, token, false, pid) {
            Err(e) => Err(e),
            Ok(anchor) => Ok((Producer::from_shm(region, opened.capacity), anchor)),
        }
    }

    /// Take the producer's role, whoever holds it. The caller knows that the
    /// holder is gone; consumers keep running.
    pub fn force_attach_shm_producer(region: &mut [u64], file_len: u64, token: u64, pid: u32) -> (r:
        Result<(Producer, BcastProducerAnchor), ShmError>)
        requires
            words_for(file_len as int) <= old(region)@.len(),
            token != 0,
        ensures
            attached(
                old(region)@,
                final(region)@,
                opened_elems::<T>(old(region)@, file_len),
                false,
                |capacity: usize| resuming(old(region)@, capacity),
                token,
                true,
                pid,
                r,
            ),
    {
        let opened = match open_bcast_elems::<T>(region, file_len) {
            Err(e) => return Err(e),
            Ok(opened) => opened,
        };
        match take_producer(region, &opened, token, true, pid) {
            Err(e) => Err(e),
            Ok(anchor) => Ok((Producer::from_shm(region, opened.capacity), anchor)),
        }
    }

    /// Take the ring over: the producer is its only role.
    pub fn recover_shm(region: &mut [u64], file_len: u64, token: u64, pid: u32) -> (r: Result<
        (Producer, BcastProducerAnchor),
        ShmError,
    >)
        requires
            words_for(file_len as int) <= old(region)@.len(),
            token != 0,
        ensures
            attached(
                old(region)@,
                final(region)@,
                opened_elems::<T>(old(region)@, file_len),
                false,
                |capacity: usize| resuming(old(region)@, capacity),
                token,
                true,
                pid,
                r,
            ),
    {
        Self::force_attach_shm_producer(region, file_len, token, pid)
    }

    /// Attach as a consumer, which takes no lease and writes nothing. It sees
    /// what is published from now on; a closed ring can be attached to as
    /// well.
    pub fn attach_shm_consumer(region: &[u64], file_len: u64) -> (r: Result<SlotReader, ShmError>)
        requires
            words_for(file_len as int) <= region@.len(),
        ensures
            match opened_elems::<T>(region@, file_len) {
                Err(e) => r == Err::<SlotReader, ShmError>(e),
                Ok(o) => r == Ok::<SlotReader, ShmError>(
                    SlotReader {
                        mask: (o.capacity - 1) as u64,
                        slack: o.slack,
                        pos: word(region@, OFF_WRITE_CURSOR as int),
                        tail_cache: word(region@, OFF_WRITE_CURSOR as int),
                    },
                ),
            },
    {
        match open_bcast_elems::<T>(region, file_len) {
            Err(e) => Err(e),
            Ok(o) => {
                let tail: u64 = read_u64(region, OFF_WRITE_CURSOR);
                Ok(SlotReader::join((o.capacity - 1) as u64, o.slack, tail))
            },
        }
    }
}

/// The producer of a fresh ring of elements.
pub open spec fn fresh_producer(capacity: usize) -> Producer {
    Producer { mask: (capacity - 1) as u64, next_seq: 0, tail_batch: 1, unpublished: 0 }
}

/// A producer of bytes that resumes at the published tail and declares nothing
/// below `floor`.
pub open spec fn resuming_bytes(region: Seq<u64>, capacity: usize, floor: u64) -> BytesProducer {
    BytesProducer {
        mask: (capacity - 1) as u64,
        next: word(region, OFF_WRITE_CURSOR as int),
        intent_floor: floor,
    }
}

impl BytesProducer {
    /// The private side of a producer that takes a region over.
    pub fn from_shm(region: &[u64], capacity: usize, intent_floor: u64) -> (r: Self)
        requires
            region@.len() >= 48,
            capacity > 0,
        ensures
            r == resuming_bytes(region@, capacity, intent_floor),
    {
        BytesProducer {
            mask: (capacity - 1) as u64,
            next: read_u64(region, OFF_WRITE_CURSOR),
            intent_floor,
        }
    }
}

/// Opening a lossy ring of bytes.
pub open spec fn opened_bytes(region: Seq<u64>, file_len: u64) -> Result<BcastOpened, ShmError> {
    lossy_open(region, file_len, KIND_BCAST_BYTES, 1, 1, BCAST_BYTES_BUFFER_OFFSET, 8, 8)
}

fn open_bcast_bytes(region: &[u64], file_len: u64) -> (r: Result<BcastOpened, ShmError>)
    requires
        words_for(file_len as int) <= region@.len(),
    ensures
        r == opened_bytes(region@, file_len),
        r matches Ok(o) ==> o.capacity > 0 && region@.len() >= 64,
{
    open_bcast_region(
        region,
        file_len,
        KIND_BCAST_BYTES,
        1,
        1,
        BCAST_BYTES_BUFFER_OFFSET,
        8,
        8,
    )
}

impl crate::broadcast_bytes::BytesRingBuffer {
    /// Make a ring and take the producer's role.
    pub fn create_shm(region: &mut [u64], min_capacity: usize, token: u64, pid: u32) -> (r: Result<
        (BytesProducer, BcastProducerAnchor),
        ShmError,
    >)
        requires
            0 < min_capacity <= usize::MAX / 2 + 1,
            token != 0,
            sized(
                old(region)@,
                rounded(min_capacity as int, 8),
                1,
                BCAST_BYTES_BUFFER_OFFSET as int,
                0,
            ),
        ensures
            created(
                old(region)@,
                final(region)@,
                create_result(
                    old(region)@,
                    KIND_BCAST_BYTES,
                    rounded(min_capacity as int, 8) as usize,
                    1,
                    1,
                    BCAST_BYTES_BUFFER_OFFSET,
                    0,
                    token,
                ),
                BytesProducer {
                    mask: (rounded(min_capacity as int, 8) - 1) as u64,
                    next: 0,
                    intent_floor: 0,
                },
                token,
                pid,
                r,
            ),
    {
        let capacity: usize = round_capacity(min_capacity, 8);
        match create_bcast_region(
            region,
            KIND_BCAST_BYTES,
            capacity,
            1,
            1,
            BCAST_BYTES_BUFFER_OFFSET,
            0,
            token,
        ) {
            Err(e) => Err(e),
            Ok(()) => {
                let producer = BytesProducer::from_shm(region, capacity, 0);
                Ok((producer, BcastProducerAnchor { token, owner_pid: pid }))
            },
        }
    }

    /// Attach as the producer; refused while the role is held. A ring that was
    /// closed is open again, and what a predecessor left half done is put in
    /// order.
    pub fn attach_shm_producer(region: &mut [u64], file_len: u64, token: u64, pid: u32) -> (r: Result<
        (BytesProducer, BcastProducerAnchor),
        ShmError,
    >)
        requires
            words_for(file_len as int) <= old(region)@.len(),
            token != 0,
        ensures
            attached(
                old(region)@,
                final(region)@,
                opened_bytes(old(region)@, file_len),
                true,
                |capacity: usize| resuming_bytes(old(region)@, capacity, floor_of(old(region)@)),
                token,
                false,
                pid,
                r,
            ),
    {
        let opened = match open_bcast_bytes(region, file_len) {
            Err(e) => return Err(e),
            Ok(opened) => opened,
        };
        match take_producer(region, &opened, token, false, pid) {
            Err(e) => Err(e),
            Ok(anchor) => {
                let floor: u64 = bytes_heal_on_attach(region);
                Ok((BytesProducer::from_shm(region, opened.capacity, floor), anchor))
            },
        }
    }

    /// Take the producer's role, whoever holds it. The caller knows that the
    /// holder is gone; consumers keep running.
    pub fn force_attach_shm_producer(region: &mut [u64], file_len: u64, token: u64, pid: u32) -> (r:
        Result<(BytesProducer, BcastProducerAnchor), ShmError>)
        requires
            words_for(file_len as int) <= old(region)@.len(),
            token != 0,
        ensures
            attached(
                old(region)@,
                final(region)@,
                opened_bytes(old(region)@, file_len),
                true,
                |capacity: usize| resuming_bytes(old(region)@, capacity, floor_of(old(region)@)),
                token,
                true,
                pid,
                r,
            ),
    {
        let opened = match open_bcast_bytes(region, file_len) {
            Err(e) => return Err(e),
            Ok(opened) => opened,
        };
        match take_producer(region, &opened, token, true, pid) {
            Err(e) => Err(e),
            Ok(anchor) => {
                let floor: u64 = bytes_heal_on_attach(region);
                Ok((BytesProducer::from_shm(region, opened.capacity, floor), anchor))
            },
        }
    }

    /// Take the ring over: the producer is its only role.
    pub fn recover_shm(region: &mut [u64], file_len: u64, token: u64, pid: u32) -> (r: Result<
        (BytesProducer, BcastProducerAnchor),
        ShmError,
    >)
        requires
            words_for(file_len as int) <= old(region)@.len(),
            token != 0,
        ensures
            attached(
                old(region)@,
                final(region)@,
                opened_bytes(old(region)@, file_len),
                true,
                |capacity: usize| resuming_bytes(old(region)@, capacity, floor_of(old(region)@)),
                token,
                true,
                pid,
                r,
            ),
    {
        Self::force_attach_shm_producer(region, file_len, token, pid)
    }

    /// Attach as a consumer, which takes no lease and writes nothing. It sees
    /// what is committed from now on; a closed ring can be attached to as
    /// well.
    pub fn attach_shm_consumer(region: &[u64], file_len: u64) -> (r: Result<ByteReader, ShmError>)
        requires
            words_for(file_len as int) <= region@.len(),
        ensures
            match opened_bytes(region@, file_len) {
                Err(e) => r == Err::<ByteReader, ShmError>(e),
                Ok(o) => r == Ok::<ByteReader, ShmError>(
                    ByteReader {
                        mask: (o.capacity - 1) as u64,
                        pos: word(region@, OFF_WRITE_CURSOR as int),
                        tail_cache: word(region@, OFF_WRITE_CURSOR as int),
                    },
                ),
            },
    {
        match open_bcast_bytes(region, file_len) {
            Err(e) => Err(e),
            Ok(o) => {
                let tail: u64 = read_u64(region, OFF_WRITE_CURSOR);
                Ok(ByteReader::join((o.capacity - 1) as u64, tail))
            },
        }
    }
}

} // verus!
