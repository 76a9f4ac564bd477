//! Shared-memory rings: making one, attaching to it, and taking over from
//! holders that are gone.
//!
//! Every function takes the region as words that the caller has mapped; see
//! [`crate::region`] for the layout, and [`crate::create`], [`crate::attach`]
//! and [`crate::table`] for the steps. A function that makes a ring writes the
//! whole region; the caller has sized it by the length functions of
//! [`crate::region`]. A function that attaches also takes the length of the
//! file behind the region, all of which is mapped.
//!
//! Tokens are random numbers other than zero, one for each lease. `pid` is the
//! process that makes the handle.

use crate::arith::ring_capacity;
use crate::attach::{open_region, pair_open, truncate, truncated, PairOpened};
use crate::create::{create_region, pair_region};
use crate::cursor::{round_capacity, rounded, ConsumerCore, ProducerCore};
use crate::region::{
    layout_len, len_ok, len_result, read_u64, store_u64, word, words_for, ShmError, BUFFER_OFFSET,
    KIND_BYTES, KIND_ELEMS, OFF_READ_CURSOR, OFF_STARVING, OFF_WRITE_CURSOR,
};
use crate::seqlock::{aligned_up, payload_offset, shm_slot_align, shm_slot_stride};
use crate::table::{claim_lease, claimed_lease, force_claim_lease, release_lease, released, Role};
use vstd::arithmetic::power2::is_pow2;
use vstd::prelude::*;

verus! {

/// Values that may cross a process boundary: plain data without addresses,
/// valid for whatever bits a peer writes.
pub trait ShmItem: Copy {

}

impl ShmItem for u8 {

}

impl ShmItem for u16 {

}

impl ShmItem for u32 {

}

impl ShmItem for u64 {

}

impl ShmItem for u128 {

}

impl ShmItem for usize {

}

impl ShmItem for i8 {

}

impl ShmItem for i16 {

}

impl ShmItem for i32 {

}

impl ShmItem for i64 {

}

impl ShmItem for i128 {

}

impl ShmItem for isize {

}

impl<T: ShmItem, const N: usize> ShmItem for [T; N] {

}

/// The size and the alignment of an element type.
#[derive(Clone, Copy)]
pub struct ElemType {
    pub size: usize,
    pub align: usize,
}

/// The size and the alignment of `T`.
pub open spec fn elem_of<T: ShmItem>() -> ElemType {
    ElemType {
        size: vstd::layout::size_of::<T>() as usize,
        align: vstd::layout::align_of::<T>() as usize,
    }
}

/// The size and the alignment of `T`.
pub fn elem_type<T: ShmItem>() -> (r: ElemType)
    ensures
        r == elem_of::<T>(),
        r.size == vstd::layout::size_of::<T>(),
        r.align == vstd::layout::align_of::<T>(),
{
    ElemType { size: core::mem::size_of::<T>(), align: core::mem::align_of::<T>() }
}

/// What is wrong with an element type.
pub open spec fn elem_fault(elem: ElemType) -> Option<ShmError> {
    if elem.size == 0 {
        Some(ShmError::ZeroSized)
    } else if elem.align > 128 {
        Some(ShmError::Overaligned)
    } else {
        None
    }
}

/// Refuse element types that a region cannot hold: empty ones, and those whose
/// alignment the start of the buffer does not have.
pub fn check_elem_type(elem: ElemType) -> (r: Result<(), ShmError>)
    ensures
        match r {
            Ok(()) => elem_fault(elem) is None,
            Err(e) => elem_fault(elem) == Some(e),
        },
{
    if elem.size == 0 {
        return Err(ShmError::ZeroSized);
    }
    if elem.align > 128 {
        return Err(ShmError::Overaligned);
    }
    Ok(())
}

/// The byte stride of a slot that carries a generation before its element.
pub open spec fn stride_of(elem: ElemType) -> int {
    aligned_up(payload_offset(elem.align as int) + elem.size, payload_offset(elem.align as int))
}

/// What is wrong with the element type of a ring whose slots carry a
/// generation.
pub open spec fn slot_fault(elem: ElemType) -> Option<ShmError> {
    if elem.size == 0 {
        Some(ShmError::ZeroSized)
    } else if payload_offset(elem.align as int) > 128 {
        Some(ShmError::Overaligned)
    } else if 2 * payload_offset(elem.align as int) + elem.size - 1 > usize::MAX {
        Some(ShmError::CapacityOverflow)
    } else {
        None
    }
}

/// Refuse element types that a slot with a generation cannot hold. The stride
/// of the others.
pub fn check_slot_type(elem: ElemType) -> (r: Result<usize, ShmError>)
    ensures
        match r {
            Ok(stride) => slot_fault(elem) is None && stride == stride_of(elem) && stride >= 8,
            Err(e) => slot_fault(elem) == Some(e),
        },
{
    if elem.size == 0 {
        return Err(ShmError::ZeroSized);
    }
    let align: usize = shm_slot_align(elem.align);
    if align > 128 {
        return Err(ShmError::Overaligned);
    }
    match shm_slot_stride(elem.size, elem.align) {
        Some(stride) => Ok(stride),
        None => Err(ShmError::CapacityOverflow),
    }
}

/// The capacity of a validated ring is one that a ring can have.
pub proof fn lemma_capacity(capacity: int, stride: int, base: int, slots: int)
    requires
        is_pow2(capacity),
        capacity > 0,
        stride > 0,
        base >= 0,
        slots >= 0,
        len_ok(layout_len(capacity, stride, base, slots)),
    ensures
        ring_capacity(capacity),
{
    assert(capacity * stride >= capacity) by (nonlinear_arith)
        requires
            capacity > 0,
            stride > 0,
    ;
    crate::arith::lemma_max_capacity();
    if capacity > crate::arith::MAX_CAPACITY {
        lemma_next_power(crate::arith::MAX_CAPACITY as int, capacity);
    }
}

/// The next power of two is the double.
pub proof fn lemma_next_power(p: int, q: int)
    requires
        is_pow2(p),
        is_pow2(q),
        p < q,
    ensures
        2 * p <= q,
    decreases p,
{
    reveal(is_pow2);
    if p > 1 {
        lemma_next_power(p / 2, q / 2);
    }
}

/// The shared-memory side of one half of a two-party ring.
#[derive(Clone, Copy)]
pub struct ShmAnchor {
    pub role: Role,
    /// The token in the role's lease.
    pub token: u64,
    /// The process that made the handle. A copy that another process inherited
    /// has the same token and must not tear anything down.
    pub owner_pid: u32,
}

impl ShmAnchor {
    /// Whether the role's lease is still held by this handle.
    pub fn owns_lease(&self, region: &[u64]) -> (r: bool)
        requires
            region@.len() >= 48,
        ensures
            r == (region@[self.role.lease()] == self.token),
    {
        read_u64(region, self.role.lease_offset()) == self.token
    }

    /// Whether a process made this handle.
    pub fn owned_by(&self, pid: u32) -> (r: bool)
        ensures
            r == (pid == self.owner_pid),
    {
        pid == self.owner_pid
    }

    /// Let the role go at the end of a handle, if this process made the handle
    /// and the role was not taken from it.
    pub fn teardown(self, region: &mut [u64], pid: u32)
        requires
            old(region)@.len() >= 48,
        ensures
            final(region)@ == (if pid == self.owner_pid {
                released(old(region)@, self.role, self.token)
            } else {
                old(region)@
            }),
    {
        if !self.owned_by(pid) {
            return;
        }
        release_lease(region, self.role, self.token);
    }
}

impl ProducerCore {
    /// The private side of a producer that takes a region over: it resumes
    /// right after what was published.
    pub fn from_shm(region: &[u64], capacity: usize) -> (r: Self)
        requires
            region@.len() >= 48,
            capacity > 0,
        ensures
            r == resuming_producer(region@, capacity),
    {
        ProducerCore {
            mask: capacity - 1,
            write_cursor: truncate(read_u64(region, OFF_WRITE_CURSOR)),
            read_cursor_cache: truncate(read_u64(region, OFF_READ_CURSOR)),
        }
    }
}

impl ConsumerCore {
    /// The private side of a consumer that takes a region over: it resumes at
    /// the cursor that was published last, so that what a predecessor consumed
    /// and did not publish is delivered again.
    pub fn from_shm(region: &[u64], capacity: usize) -> (r: Self)
        requires
            region@.len() >= 48,
            capacity > 0,
        ensures
            r == resuming_consumer(region@, capacity),
    {
        let read: usize = truncate(read_u64(region, OFF_READ_CURSOR));
        ConsumerCore {
            mask: capacity - 1,
            read_cursor: read,
            published: read,
            write_cursor_cache: read,
        }
    }
}

/// A producer that resumes right after what was published.
pub open spec fn resuming_producer(region: Seq<u64>, capacity: usize) -> ProducerCore {
    ProducerCore {
        mask: (capacity - 1) as usize,
        write_cursor: truncated(word(region, OFF_WRITE_CURSOR as int)),
        read_cursor_cache: truncated(word(region, OFF_READ_CURSOR as int)),
    }
}

/// A consumer that resumes at the cursor that was published last.
pub open spec fn resuming_consumer(region: Seq<u64>, capacity: usize) -> ConsumerCore {
    let read = truncated(word(region, OFF_READ_CURSOR as int));
    ConsumerCore {
        mask: (capacity - 1) as usize,
        read_cursor: read,
        published: read,
        write_cursor_cache: read,
    }
}

/// Both halves of a two-party ring.
pub struct ShmPair {
    pub producer: ProducerCore,
    pub producer_anchor: ShmAnchor,
    pub consumer: ConsumerCore,
    pub consumer_anchor: ShmAnchor,
}

/// What sets the two-party rings apart.
#[derive(Clone, Copy)]
pub struct PairKind {
    pub kind: u32,
    pub unit_size: usize,
    pub min_capacity: usize,
    /// Cursors are multiples of this.
    pub cursor_align: usize,
}

/// A ring of elements: any cursor is good.
pub open spec fn elem_pair(elem: ElemType) -> PairKind {
    PairKind { kind: KIND_ELEMS, unit_size: elem.size, min_capacity: 1, cursor_align: 1 }
}

/// A ring of bytes: records of at least eight bytes at multiples of eight.
pub open spec fn byte_pair() -> PairKind {
    PairKind { kind: KIND_BYTES, unit_size: 1, min_capacity: 8, cursor_align: 8 }
}

fn elem_pair_kind(elem: ElemType) -> (r: PairKind)
    ensures
        r == elem_pair(elem),
{
    PairKind { kind: KIND_ELEMS, unit_size: elem.size, min_capacity: 1, cursor_align: 1 }
}

fn byte_pair_kind() -> (r: PairKind)
    ensures
        r == byte_pair(),
{
    PairKind { kind: KIND_BYTES, unit_size: 1, min_capacity: 8, cursor_align: 8 }
}

/// Opening a two-party ring.
pub open spec fn opened_pair(region: Seq<u64>, file_len: u64, kind: PairKind) -> Result<
    PairOpened,
    ShmError,
> {
    pair_open(
        region,
        file_len,
        kind.kind,
        kind.unit_size,
        kind.min_capacity,
        kind.cursor_align,
    )
}

/// The outcome of making a two-party ring.
pub open spec fn pair_created(
    before: Seq<u64>,
    after: Seq<u64>,
    kind: PairKind,
    capacity: int,
    producer: u64,
    consumer: u64,
    pid: u32,
    r: Result<ShmPair, ShmError>,
) -> bool {
    let len = layout_len(capacity, kind.unit_size as int, BUFFER_OFFSET as int, 0);
    match r {
        Ok(pair) => {
            &&& len_ok(len)
            &&& after == pair_region(
                before,
                kind.kind,
                capacity as usize,
                kind.unit_size,
                producer,
                consumer,
            )
            &&& pair.producer == resuming_producer(after, capacity as usize)
            &&& pair.consumer == resuming_consumer(after, capacity as usize)
            &&& pair.producer_anchor == (ShmAnchor {
                role: Role::Producer,
                token: producer,
                owner_pid: pid,
            })
            &&& pair.consumer_anchor == (ShmAnchor {
                role: Role::Consumer,
                token: consumer,
                owner_pid: pid,
            })
        },
        Err(e) => len_result(len) == Err::<usize, ShmError>(e) && after == before,
    }
}

/// A region has been sized for a ring.
pub open spec fn sized(
    region: Seq<u64>,
    capacity: int,
    stride: int,
    base: int,
    slots: int,
) -> bool {
    let len = layout_len(capacity, stride, base, slots);
    len_ok(len) ==> region.len() == words_for(len)
}

fn create_pair(
    region: &mut [u64],
    kind: PairKind,
    capacity: usize,
    producer: u64,
    consumer: u64,
    pid: u32,
) -> (r: Result<ShmPair, ShmError>)
    requires
        capacity > 0,
        sized(old(region)@, capacity as int, kind.unit_size as int, BUFFER_OFFSET as int, 0),
    ensures
        pair_created(
            old(region)@,
            final(region)@,
            kind,
            capacity as int,
            producer,
            consumer,
            pid,
            r,
        ),
{
    match create_region(region, kind.kind, capacity, kind.unit_size, producer, consumer) {
        Err(e) => Err(e),
        Ok(()) => {
            proof {
                assert(capacity * kind.unit_size >= 0) by (nonlinear_arith)
                    requires
                        capacity >= 0,
                        kind.unit_size >= 0,
                ;
            }
            Ok(
                ShmPair {
                    producer: ProducerCore::from_shm(region, capacity),
                    producer_anchor: ShmAnchor {
                        role: Role::Producer,
                        token: producer,
                        owner_pid: pid,
                    },
                    consumer: ConsumerCore::from_shm(region, capacity),
                    consumer_anchor: ShmAnchor {
                        role: Role::Consumer,
                        token: consumer,
                        owner_pid: pid,
                    },
                },
            )
        },
    }
}

/// The outcome of taking a role: by a claim, which fails where the role is
/// held or the region was re-initialised, or by force.
pub open spec fn role_result(
    region: Seq<u64>,
    role: Role,
    generation: u64,
    token: u64,
    force: bool,
) -> Result<u64, ShmError> {
    if force {
        Ok(token)
    } else {
        claimed_lease(region, role, generation, token)
    }
}

/// Take a role: by a claim, or by force.
pub fn take_role(region: &mut [u64], role: Role, generation: u64, token: u64, force: bool) -> (r: Result<
    u64,
    ShmError,
>)
    requires
        old(region)@.len() >= 48,
        token != 0,
    ensures
        r == role_result(old(region)@, role, generation, token, force),
        final(region)@ == (if r is Ok {
            old(region)@.update(role.lease(), token)
        } else {
            old(region)@
        }),
{
    if force {
        Ok(force_claim_lease(region, role, token))
    } else {
        claim_lease(region, role, generation, token)
    }
}

/// The outcome of attaching to a two-party ring as its producer: a producer
/// that attaches is not starving.
pub open spec fn producer_attached(
    before: Seq<u64>,
    after: Seq<u64>,
    opened: Result<PairOpened, ShmError>,
    token: u64,
    force: bool,
    pid: u32,
    r: Result<(ProducerCore, ShmAnchor), ShmError>,
) -> bool {
    match opened {
        Err(e) => r == Err::<(ProducerCore, ShmAnchor), ShmError>(e) && after == before,
        Ok(o) => match role_result(before, Role::Producer, o.generation, token, force) {
            Err(e) => r == Err::<(ProducerCore, ShmAnchor), ShmError>(e) && after == before,
            Ok(_) => {
                &&& after == before.update(5, token).update(33, 0)
                &&& r == Ok::<(ProducerCore, ShmAnchor), ShmError>(
                    (
                        resuming_producer(before, o.capacity),
                        ShmAnchor { role: Role::Producer, token, owner_pid: pid },
                    ),
                )
            },
        },
    }
}

/// The outcome of attaching to a two-party ring as its consumer.
pub open spec fn consumer_attached(
    before: Seq<u64>,
    after: Seq<u64>,
    opened: Result<PairOpened, ShmError>,
    token: u64,
    force: bool,
    pid: u32,
    r: Result<(ConsumerCore, ShmAnchor), ShmError>,
) -> bool {
    match opened {
        Err(e) => r == Err::<(ConsumerCore, ShmAnchor), ShmError>(e) && after == before,
        Ok(o) => match role_result(before, Role::Consumer, o.generation, token, force) {
            Err(e) => r == Err::<(ConsumerCore, ShmAnchor), ShmError>(e) && after == before,
            Ok(_) => {
                &&& after == before.update(6, token)
                &&& r == Ok::<(ConsumerCore, ShmAnchor), ShmError>(
                    (
                        resuming_consumer(before, o.capacity),
                        ShmAnchor { role: Role::Consumer, token, owner_pid: pid },
                    ),
                )
            },
        },
    }
}

fn attach_producer_role(
    region: &mut [u64],
    file_len: u64,
    kind: PairKind,
    token: u64,
    force: bool,
    pid: u32,
) -> (r: Result<(ProducerCore, ShmAnchor), ShmError>)
    requires
        words_for(file_len as int) <= old(region)@.len(),
        kind.cursor_align > 0,
        token != 0,
    ensures
        producer_attached(
            old(region)@,
            final(region)@,
            opened_pair(old(region)@, file_len, kind),
            token,
            force,
            pid,
            r,
        ),
{
    let opened = match open_region(
        region,
        file_len,
        kind.kind,
        kind.unit_size,
        kind.min_capacity,
        kind.cursor_align,
    ) {
        Err(e) => return Err(e),
        Ok(opened) => opened,
    };
    match take_role(region, Role::Producer, opened.generation, token, force) {
        Err(e) => Err(e),
        Ok(token) => {
            store_u64(region, OFF_STARVING, 0);
            let core = ProducerCore::from_shm(region, opened.capacity);
            Ok((core, ShmAnchor { role: Role::Producer, token, owner_pid: pid }))
        },
    }
}

fn attach_consumer_role(
    region: &mut [u64],
    file_len: u64,
    kind: PairKind,
    token: u64,
    force: bool,
    pid: u32,
) -> (r: Result<(ConsumerCore, ShmAnchor), ShmError>)
    requires
        words_for(file_len as int) <= old(region)@.len(),
        kind.cursor_align > 0,
        token != 0,
    ensures
        consumer_attached(
            old(region)@,
            final(region)@,
            opened_pair(old(region)@, file_len, kind),
            token,
            force,
            pid,
            r,
        ),
{
    let opened = match open_region(
        region,
        file_len,
        kind.kind,
        kind.unit_size,
        kind.min_capacity,
        kind.cursor_align,
    ) {
        Err(e) => return Err(e),
        Ok(opened) => opened,
    };
    match take_role(region, Role::Consumer, opened.generation, token, force) {
        Err(e) => Err(e),
        Ok(token) => {
            let core = ConsumerCore::from_shm(region, opened.capacity);
            Ok((core, ShmAnchor { role: Role::Consumer, token, owner_pid: pid }))
        },
    }
}

/// The outcome of taking both roles of a two-party ring by force.
pub open spec fn pair_recovered(
    before: Seq<u64>,
    after: Seq<u64>,
    opened: Result<PairOpened, ShmError>,
    producer: u64,
    consumer: u64,
    pid: u32,
    r: Result<ShmPair, ShmError>,
) -> bool {
    match opened {
        Err(e) => r == Err::<ShmPair, ShmError>(e) && after == before,
        Ok(o) => {
            &&& after == before.update(5, producer).update(33, 0).update(6, consumer)
            &&& r == Ok::<ShmPair, ShmError>(
                ShmPair {
                    producer: resuming_producer(before, o.capacity),
                    producer_anchor: ShmAnchor {
                        role: Role::Producer,
                        token: producer,
                        owner_pid: pid,
                    },
                    consumer: resuming_consumer(before, o.capacity),
                    consumer_anchor: ShmAnchor {
                        role: Role::Consumer,
                        token: consumer,
                        owner_pid: pid,
                    },
                },
            )
        },
    }
}

fn recover_pair(
    region: &mut [u64],
    file_len: u64,
    kind: PairKind,
    producer: u64,
    consumer: u64,
    pid: u32,
) -> (r: Result<ShmPair, ShmError>)
    requires
        words_for(file_len as int) <= old(region)@.len(),
        kind.cursor_align > 0,
        producer != 0,
        consumer != 0,
    ensures
        pair_recovered(
            old(region)@,
            final(region)@,
            opened_pair(old(region)@, file_len, kind),
            producer,
            consumer,
            pid,
            r,
        ),
{
    let opened = match open_region(
        region,
        file_len,
        kind.kind,
        kind.unit_size,
        kind.min_capacity,
        kind.cursor_align,
    ) {
        Err(e) => return Err(e),
        Ok(opened) => opened,
    };
    let producer_token: u64 = force_claim_lease(region, Role::Producer, producer);
    store_u64(region, OFF_STARVING, 0);
    let producer_core = ProducerCore::from_shm(region, opened.capacity);
    let consumer_token: u64 = force_claim_lease(region, Role::Consumer, consumer);
    let consumer_core = ConsumerCore::from_shm(region, opened.capacity);
    Ok(
        ShmPair {
            producer: producer_core,
            producer_anchor: ShmAnchor {
                role: Role::Producer,
                token: producer_token,
                owner_pid: pid,
            },
            consumer: consumer_core,
            consumer_anchor: ShmAnchor {
                role: Role::Consumer,
                token: consumer_token,
                owner_pid: pid,
            },
        },
    )
}

/// What a wrong element type, or else the ring, comes to.
pub open spec fn elem_checked<A>(elem: ElemType, r: Result<A, ShmError>) -> Result<A, ShmError> {
    match elem_fault(elem) {
        Some(e) => Err(e),
        None => r,
    }
}

impl<T: ShmItem> crate::spsc::RingBuffer<T> {
    /// Make a ring and take both halves.
    pub fn create_shm(
        region: &mut [u64],
        min_capacity: usize,
        producer: u64,
        consumer: u64,
        pid: u32,
    ) -> (r: Result<ShmPair, ShmError>)
        requires
            0 < min_capacity <= usize::MAX / 2 + 1,
            producer != 0,
            consumer != 0,
            sized(
                old(region)@,
                rounded(min_capacity as int, 1),
                vstd::layout::size_of::<T>() as int,
                BUFFER_OFFSET as int,
                0,
            ),
        ensures
            match elem_fault(elem_of::<T>()) {
                Some(e) => r == Err::<ShmPair, ShmError>(e) && final(region)@ == old(region)@,
                None => pair_created(
                    old(region)@,
                    final(region)@,
                    elem_pair(elem_of::<T>()),
                    rounded(min_capacity as int, 1),
                    producer,
                    consumer,
                    pid,
                    r,
                ),
            },
    {
        match check_elem_type(elem_type::<T>()) {
            Err(e) => return Err(e),
            Ok(()) => {},
        }
        let capacity: usize = round_capacity(min_capacity, 1);
        let kind = elem_pair_kind(elem_type::<T>());
        create_pair(region, kind, capacity, producer, consumer, pid)
    }

    /// Attach as the producer; refused while the role is held.
    pub fn attach_shm_producer(
        region: &mut [u64],
        file_len: u64,
        token: u64,
        pid: u32,
    ) -> (r: Result<(ProducerCore, ShmAnchor), ShmError>)
        requires
            words_for(file_len as int) <= old(region)@.len(),
            token != 0,
        ensures
            producer_attached(
                old(region)@,
                final(region)@,
                elem_checked(
                    elem_of::<T>(),
                    opened_pair(old(region)@, file_len, elem_pair(elem_of::<T>())),
                ),
                token,
                false,
                pid,
                r,
            ),
    {
        match check_elem_type(elem_type::<T>()) {
            Err(e) => return Err(e),
            Ok(()) => {},
        }
        let kind = elem_pair_kind(elem_type::<T>());
        attach_producer_role(region, file_len, kind, token, false, pid)
    }

    /// Attach as the consumer; refused while the role is held.
    pub fn attach_shm_consumer(
        region: &mut [u64],
        file_len: u64,
        token: u64,
        pid: u32,
    ) -> (r: Result<(ConsumerCore, ShmAnchor), ShmError>)
        requires
            words_for(file_len as int) <= old(region)@.len(),
            token != 0,
        ensures
            consumer_attached(
                old(region)@,
                final(region)@,
                elem_checked(
                    elem_of::<T>(),
                    opened_pair(old(region)@, file_len, elem_pair(elem_of::<T>())),
                ),
                token,
                false,
                pid,
                r,
            ),
    {
        match check_elem_type(elem_type::<T>()) {
            Err(e) => return Err(e),
            Ok(()) => {},
        }
        let kind = elem_pair_kind(elem_type::<T>());
        attach_consumer_role(region, file_len, kind, token, false, pid)
    }

    /// Take the producer's role, whoever holds it. The caller knows that the
    /// holder is gone.
    pub fn force_attach_shm_producer(
        region: &mut [u64],
        file_len: u64,
        token: u64,
        pid: u32,
    ) -> (r: Result<(ProducerCore, ShmAnchor), ShmError>)
        requires
            words_for(file_len as int) <= old(region)@.len(),
            token != 0,
        ensures
            producer_attached(
                old(region)@,
                final(region)@,
                elem_checked(
                    elem_of::<T>(),
                    opened_pair(old(region)@, file_len, elem_pair(elem_of::<T>())),
                ),
                token,
                true,
                pid,
                r,
            ),
    {
        match check_elem_type(elem_type::<T>()) {
            Err(e) => return Err(e),
            Ok(()) => {},
        }
        let kind = elem_pair_kind(elem_type::<T>());
        attach_producer_role(region, file_len, kind, token, true, pid)
    }

    /// Take the consumer's role, whoever holds it. The caller knows that the
    /// holder is gone. What it consumed and did not publish is delivered
    /// again.
    pub fn force_attach_shm_consumer(
        region: &mut [u64],
        file_len: u64,
        token: u64,
        pid: u32,
    ) -> (r: Result<(ConsumerCore, ShmAnchor), ShmError>)
        requires
            words_for(file_len as int) <= old(region)@.len(),
            token != 0,
        ensures
            consumer_attached(
                old(region)@,
                final(region)@,
                elem_checked(
                    elem_of::<T>(),
                    opened_pair(old(region)@, file_len, elem_pair(elem_of::<T>())),
                ),
                token,
                true,
                pid,
                r,
            ),
    {
        match check_elem_type(elem_type::<T>()) {
            Err(e) => return Err(e),
            Ok(()) => {},
        }
        let kind = elem_pair_kind(elem_type::<T>());
        attach_consumer_role(region, file_len, kind, token, true, pid)
    }

    /// Take both roles, whoever holds them.
    pub fn recover_shm(
        region: &mut [u64],
        file_len: u64,
        producer: u64,
        consumer: u64,
        pid: u32,
    ) -> (r: Result<ShmPair, ShmError>)
        requires
            words_for(file_len as int) <= old(region)@.len(),
            producer != 0,
            consumer != 0,
        ensures
            pair_recovered(
                old(region)@,
                final(region)@,
                elem_checked(
                    elem_of::<T>(),
                    opened_pair(old(region)@, file_len, elem_pair(elem_of::<T>())),
                ),
                producer,
                consumer,
                pid,
                r,
            ),
    {
        match check_elem_type(elem_type::<T>()) {
            Err(e) => return Err(e),
            Ok(()) => {},
        }
        let kind = elem_pair_kind(elem_type::<T>());
        recover_pair(region, file_len, kind, producer, consumer, pid)
    }
}

impl crate::spsc_bytes::BytesRingBuffer {
    /// Make a ring and take both halves.
    pub fn create_shm(
        region: &mut [u64],
        min_capacity: usize,
        producer: u64,
        consumer: u64,
        pid: u32,
    ) -> (r: Result<ShmPair, ShmError>)
        requires
            0 < min_capacity <= usize::MAX / 2 + 1,
            producer != 0,
            consumer != 0,
            sized(old(region)@, rounded(min_capacity as int, 8), 1, BUFFER_OFFSET as int, 0),
        ensures
            pair_created(
                old(region)@,
                final(region)@,
                byte_pair(),
                rounded(min_capacity as int, 8),
                producer,
                consumer,
                pid,
                r,
            ),
    {
        let capacity: usize = round_capacity(min_capacity, 8);
        let kind = byte_pair_kind();
        create_pair(region, kind, capacity, producer, consumer, pid)
    }

    /// Attach as the producer; refused while the role is held.
    pub fn attach_shm_producer(region: &mut [u64], file_len: u64, token: u64, pid: u32) -> (r:
        Result<(ProducerCore, ShmAnchor), ShmError>)
        requires
            words_for(file_len as int) <= old(region)@.len(),
            token != 0,
        ensures
            producer_attached(
                old(region)@,
                final(region)@,
                opened_pair(old(region)@, file_len, byte_pair()),
                token,
                false,
                pid,
                r,
            ),
    {
        let kind = byte_pair_kind();
        attach_producer_role(region, file_len, kind, token, false, pid)
    }

    /// Attach as the consumer; refused while the role is held.
    pub fn attach_shm_consumer(region: &mut [u64], file_len: u64, token: u64, pid: u32) -> (r:
        Result<(ConsumerCore, ShmAnchor), ShmError>)
        requires
            words_for(file_len as int) <= old(region)@.len(),
            token != 0,
        ensures
            consumer_attached(
                old(region)@,
                final(region)@,
                opened_pair(old(region)@, file_len, byte_pair()),
                token,
                false,
                pid,
                r,
            ),
    {
        let kind = byte_pair_kind();
        attach_consumer_role(region, file_len, kind, token, false, pid)
    }

    /// Take the producer's role, whoever holds it.
    pub fn force_attach_shm_producer(region: &mut [u64], file_len: u64, token: u64, pid: u32) -> (r:
        Result<(ProducerCore, ShmAnchor), ShmError>)
        requires
            words_for(file_len as int) <= old(region)@.len(),
            token != 0,
        ensures
            producer_attached(
                old(region)@,
                final(region)@,
                opened_pair(old(region)@, file_len, byte_pair()),
                token,
                true,
                pid,
                r,
            ),
    {
        let kind = byte_pair_kind();
        attach_producer_role(region, file_len, kind, token, true, pid)
    }

    /// Take the consumer's role, whoever holds it.
    pub fn force_attach_shm_consumer(region: &mut [u64], file_len: u64, token: u64, pid: u32) -> (r:
        Result<(ConsumerCore, ShmAnchor), ShmError>)
        requires
            words_for(file_len as int) <= old(region)@.len(),
            token != 0,
        ensures
            consumer_attached(
                old(region)@,
                final(region)@,
                opened_pair(old(region)@, file_len, byte_pair()),
                token,
                true,
                pid,
                r,
            ),
    {
        let kind = byte_pair_kind();
        attach_consumer_role(region, file_len, kind, token, true, pid)
    }

    /// Take both roles, whoever holds them.
    pub fn recover_shm(
        region: &mut [u64],
        file_len: u64,
        producer: u64,
        consumer: u64,
        pid: u32,
    ) -> (r: Result<ShmPair, ShmError>)
        requires
            words_for(file_len as int) <= old(region)@.len(),
            producer != 0,
            consumer != 0,
        ensures
            pair_recovered(
                old(region)@,
                final(region)@,
                opened_pair(old(region)@, file_len, byte_pair()),
                producer,
                consumer,
                pid,
                r,
            ),
    {
        let kind = byte_pair_kind();
        recover_pair(region, file_len, kind, producer, consumer, pid)
    }
}

} // verus!
