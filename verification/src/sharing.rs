//! What processes that share a region can rely on: what a region must hold to
//! be opened, that what is made opens, who gets a role, and where a handle that
//! attaches goes on.

use crate::arith::lag_usize;
use crate::attach::{
    anchored_open, gating_open, header_fault, look_fault, lossy_open, pair_open, samples_fault,
    still_sample, truncated, AnchOpened, BcastOpened, CursorSample, PairOpened, SpmcOpened,
};
use crate::create::{anchored_region, gating_region, lossy_region, pair_region};
use crate::cursor::{ConsumerCore, ProducerCore, Shared};
use crate::gate::{GateConsumer, GateProducer};
use crate::gate_shm::{GateShmConsumer, GateShmProducer};
use crate::region::{
    control_at, epoch_of, layout_len, len_ok, len_result, state_of, table_fits, words_for, ShmError,
};
use crate::shm::{
    consumer_attached, elem_fault, pair_created, pair_recovered, producer_attached, slot_fault,
    stride_of, ElemType, PairKind, ShmAnchor, ShmPair,
};
use crate::shm_dense::dense;
use crate::shm_gating::{
    fits, floor_of, gate_consumer_attached, gate_detached, gate_producer_attached, table_recovered,
    GateKind, GateOpened,
};
use crate::shm_lossy::{
    attached, create_result, created, fresh_producer, resuming, resuming_bytes, BcastProducerAnchor,
};
use crate::shm_slots::{geometry, lemma_geometry};
use crate::table::{first_free, released, without_claim, Role, SlotClaim};
use crate::{broadcast, broadcast_bytes};
use vstd::arithmetic::power2::is_pow2;
use vstd::prelude::*;

verus! {

/// A word that a machine word can hold is read as it is.
pub proof fn a_word_is_read_as_it_is(w: u64)
    requires
        w <= usize::MAX,
    ensures
        truncated(w) == w,
{
    let m = usize::MAX as u64;
    assert(m == 0xffff_ffff || m == 0xffff_ffff_ffff_ffff);
    assert(w & m == w) by (bit_vector)
        requires
            w <= m,
            m == 0xffff_ffff || m == 0xffff_ffff_ffff_ffff,
    ;
}

/// The header of a ring of a kind is accepted exactly where a file of at least
/// 384 bytes holds the magic number, the version, the kind, the unit size, the
/// width of a machine word and a power of two as capacity, and nobody is
/// initialising it.
pub proof fn a_header_is_accepted_for_what_it_says(
    header: Seq<u64>,
    file_len: u64,
    kind: u32,
    unit_size: usize,
    min_capacity: usize,
    wrong_kind: ShmError,
)
    requires
        header.len() >= 48,
        header[2] <= usize::MAX,
    ensures
        header_fault(header, file_len, kind, unit_size, min_capacity, wrong_kind) is None <==> {
            &&& file_len >= 384
            &&& header[7] % 2 == 0
            &&& header[0] == 0x3162_725f_7473_7572
            &&& header[1] == 1 + 0x1_0000_0000 * kind
            &&& unit_size != 0
            &&& header[3] == unit_size
            &&& header[4] as int % 0x1_0000_0000 == usize::BITS
            &&& header[2] != 0
            &&& is_pow2(header[2] as int)
            &&& header[2] >= min_capacity
        },
{
    a_word_is_read_as_it_is(header[2]);
}

/// A two-party ring opens exactly where its header is accepted, the file is
/// long enough for its buffer, and its cursors stand at record boundaries, at
/// most a ring full apart. What is opened is what the header says.
pub proof fn a_pair_opens_for_what_it_holds(
    region: Seq<u64>,
    file_len: u64,
    kind: u32,
    unit_size: usize,
    min_capacity: usize,
    cursor_align: usize,
)
    requires
        region.len() >= 48,
        region[2] <= usize::MAX,
        region[16] <= usize::MAX,
        region[32] <= usize::MAX,
        cursor_align > 0,
    ensures
        ({
            let len = region[2] * unit_size + 384;
            let r = pair_open(region, file_len, kind, unit_size, min_capacity, cursor_align);
            &&& r is Ok <==> {
                &&& header_fault(
                    region,
                    file_len,
                    kind,
                    unit_size,
                    min_capacity,
                    ShmError::PairKindMismatch,
                ) is None
                &&& len <= usize::MAX / 2
                &&& len <= file_len
                &&& region[16] as int % cursor_align as int == 0
                &&& region[32] as int % cursor_align as int == 0
                &&& lag_usize(region[16] as usize, region[32] as usize) <= region[2]
            }
            &&& r matches Ok(o) ==> o == (PairOpened {
                capacity: region[2] as usize,
                generation: region[7],
                len: len as usize,
            })
        }),
{
    a_word_is_read_as_it_is(region[2]);
    a_word_is_read_as_it_is(region[16]);
    a_word_is_read_as_it_is(region[32]);
    let samples = seq![still_sample(region)];
    assert(samples[0] == still_sample(region));
    assert(samples_fault(samples, 1, cursor_align, region[2] as usize) is None);
}

/// A gating ring opens exactly where its header is accepted, it has a table,
/// the file is long enough for table and buffer, and its tail stands at a record
/// boundary. What is opened is what the header says.
pub proof fn a_gating_ring_opens_for_what_it_holds(
    region: Seq<u64>,
    file_len: u64,
    kind: u32,
    unit_size: usize,
    min_capacity: usize,
    cursor_align: u64,
)
    requires
        region.len() >= 48,
        region[2] <= usize::MAX,
        cursor_align > 0,
    ensures
        ({
            let slots = region[4] as int / 0x1_0000_0000;
            let len = region[2] * unit_size + 384 + slots * 128;
            let r = gating_open(region, file_len, kind, unit_size, min_capacity, cursor_align);
            &&& r is Ok <==> {
                &&& header_fault(
                    region,
                    file_len,
                    kind,
                    unit_size,
                    min_capacity,
                    ShmError::KindMismatch,
                ) is None
                &&& slots >= 1
                &&& len <= usize::MAX / 2
                &&& len <= file_len
                &&& region[16] as int % cursor_align as int == 0
            }
            &&& r matches Ok(o) ==> o == (SpmcOpened {
                capacity: region[2] as usize,
                max_consumers: slots as usize,
                generation: region[7],
                len: len as usize,
            })
        }),
{
    a_word_is_read_as_it_is(region[2]);
}

/// A lossy ring opens exactly where its header is accepted, the slack is less
/// than the capacity, the stride is the expected one, the file is long enough
/// for the buffer, and the tail stands at a record boundary. What is opened is
/// what the header says.
pub proof fn a_lossy_ring_opens_for_what_it_holds(
    region: Seq<u64>,
    file_len: u64,
    kind: u32,
    unit_size: usize,
    stride: usize,
    buffer_offset: usize,
    min_capacity: usize,
    tail_align: u64,
)
    requires
        region.len() >= 48,
        region[2] <= usize::MAX,
        tail_align > 0,
    ensures
        ({
            let len = region[2] * stride + buffer_offset;
            let r = lossy_open(
                region,
                file_len,
                kind,
                unit_size,
                stride,
                buffer_offset,
                min_capacity,
                tail_align,
            );
            &&& r is Ok <==> {
                &&& header_fault(
                    region,
                    file_len,
                    kind,
                    unit_size,
                    min_capacity,
                    ShmError::KindMismatch,
                ) is None
                &&& region[18] < region[2]
                &&& region[19] == stride
                &&& len <= usize::MAX / 2
                &&& len <= file_len
                &&& region[16] as int % tail_align as int == 0
            }
            &&& r matches Ok(o) ==> o == (BcastOpened {
                capacity: region[2] as usize,
                generation: region[7],
                slack: region[18],
                len: len as usize,
            })
        }),
{
    a_word_is_read_as_it_is(region[2]);
}

/// An anchored ring opens exactly where its header is accepted, it has a table,
/// the slack of an element ring is less than the capacity, the stride is the
/// expected one, the file is long enough for table and buffer, and the tail
/// stands at a record boundary. What is opened is what the header says.
pub proof fn an_anchored_ring_opens_for_what_it_holds(
    region: Seq<u64>,
    file_len: u64,
    kind: u32,
    unit_size: usize,
    stride: usize,
    table_offset: usize,
    min_capacity: usize,
    tail_align: u64,
)
    requires
        region.len() >= 48,
        region[2] <= usize::MAX,
        tail_align > 0,
    ensures
        ({
            let slots = region[4] as int / 0x1_0000_0000;
            let len = region[2] * stride + table_offset + slots * 128;
            let r = anchored_open(
                region,
                file_len,
                kind,
                unit_size,
                stride,
                table_offset,
                min_capacity,
                tail_align,
            );
            &&& r is Ok <==> {
                &&& header_fault(
                    region,
                    file_len,
                    kind,
                    unit_size,
                    min_capacity,
                    ShmError::KindMismatch,
                ) is None
                &&& slots >= 1
                &&& kind == 9 ==> region[18] < region[2]
                &&& region[19] == stride
                &&& len <= usize::MAX / 2
                &&& len <= file_len
                &&& region[16] as int % tail_align as int == 0
            }
            &&& r matches Ok(o) ==> o == (AnchOpened {
                capacity: region[2] as usize,
                max_anchors: slots as usize,
                table_offset,
                generation: region[7],
                slack: if kind == 9 {
                    region[18]
                } else {
                    0
                },
                len: len as usize,
            })
        }),
{
    a_word_is_read_as_it_is(region[2]);
}

/// A two-party ring that was made opens, as what it was made as and as nothing
/// else: empty, and with both roles held.
pub proof fn a_pair_that_was_made_opens(
    before: Seq<u64>,
    kind: u32,
    capacity: usize,
    unit_size: usize,
    producer: u64,
    consumer: u64,
    file_len: u64,
    other_kind: u32,
    other_size: usize,
    min_capacity: usize,
    cursor_align: usize,
)
    requires
        before.len() >= 48,
        capacity > 0,
        is_pow2(capacity as int),
        capacity >= min_capacity,
        unit_size > 0,
        cursor_align > 0,
        capacity * unit_size + 384 <= usize::MAX / 2,
        capacity * unit_size + 384 <= file_len,
    ensures
        ({
            let after = pair_region(before, kind, capacity, unit_size, producer, consumer);
            let r = pair_open(
                after,
                file_len,
                other_kind,
                other_size,
                min_capacity,
                cursor_align,
            );
            &&& r is Ok <==> other_kind == kind && other_size == unit_size
            &&& r matches Ok(o) ==> o.capacity == capacity && o.generation == after[7]
            &&& after.len() == before.len()
            &&& after[5] == producer
            &&& after[6] == consumer
            &&& after[16] == 0
            &&& after[32] == 0
            &&& after[33] == 0
            &&& after[7] != before[7]
            &&& after[7] % 2 == 0
        }),
{
    let after = pair_region(before, kind, capacity, unit_size, producer, consumer);
    a_header_is_accepted_for_what_it_says(
        after,
        file_len,
        other_kind,
        other_size,
        min_capacity,
        ShmError::PairKindMismatch,
    );
    a_pair_opens_for_what_it_holds(
        after,
        file_len,
        other_kind,
        other_size,
        min_capacity,
        cursor_align,
    );
}

/// A gating ring that was made opens, as what it was made as and as nothing
/// else: empty and open, with a producer and a table of free slots.
pub proof fn a_gating_ring_that_was_made_opens(
    before: Seq<u64>,
    kind: u32,
    capacity: usize,
    unit_size: usize,
    max_consumers: usize,
    producer: u64,
    file_len: u64,
    other_kind: u32,
    other_size: usize,
    min_capacity: usize,
    cursor_align: u64,
    slot: int,
)
    requires
        before.len() >= 48 + 16 * max_consumers,
        capacity > 0,
        is_pow2(capacity as int),
        capacity >= min_capacity,
        unit_size > 0,
        1 <= max_consumers <= u32::MAX,
        cursor_align > 0,
        capacity * unit_size + 384 + max_consumers * 128 <= usize::MAX / 2,
        capacity * unit_size + 384 + max_consumers * 128 <= file_len,
        0 <= slot < max_consumers,
    ensures
        ({
            let after = gating_region(before, kind, capacity, unit_size, max_consumers, producer);
            let r = gating_open(
                after,
                file_len,
                other_kind,
                other_size,
                min_capacity,
                cursor_align,
            );
            &&& r is Ok <==> other_kind == kind && other_size == unit_size
            &&& r matches Ok(o) ==> o.capacity == capacity && o.max_consumers == max_consumers
                && o.generation == after[7]
            &&& after.len() == before.len()
            &&& after[5] == producer
            &&& after[16] == 0
            &&& after[17] == 0
            &&& after[48 + 16 * slot] == 0
            &&& after[48 + 16 * slot + 1] == 0
            &&& after[48 + 16 * slot + 2] == u64::MAX
            &&& after[7] != before[7]
            &&& after[7] % 2 == 0
        }),
{
    let after = gating_region(before, kind, capacity, unit_size, max_consumers, producer);
    assert(after[0] == 0x3162_725f_7473_7572);
    assert(after[1] == 1 + 0x1_0000_0000 * kind);
    assert(after[2] == capacity);
    assert(after[3] == unit_size);
    assert(after[4] == usize::BITS + 0x1_0000_0000 * max_consumers);
    assert(after[16] == 0);
    assert(0int % cursor_align as int == 0);
    a_header_is_accepted_for_what_it_says(
        after,
        file_len,
        other_kind,
        other_size,
        min_capacity,
        ShmError::KindMismatch,
    );
    a_gating_ring_opens_for_what_it_holds(
        after,
        file_len,
        other_kind,
        other_size,
        min_capacity,
        cursor_align,
    );
}

/// A lossy ring that was made opens, as what it was made as and as nothing
/// else: empty and open, with a producer.
pub proof fn a_lossy_ring_that_was_made_opens(
    before: Seq<u64>,
    kind: u32,
    capacity: usize,
    unit_size: usize,
    stride: usize,
    slack: u64,
    producer: u64,
    file_len: u64,
    buffer_offset: usize,
    other_kind: u32,
    other_size: usize,
    other_stride: usize,
    min_capacity: usize,
    tail_align: u64,
)
    requires
        before.len() >= 48,
        capacity > 0,
        is_pow2(capacity as int),
        capacity >= min_capacity,
        unit_size > 0,
        slack < capacity,
        tail_align > 0,
        384 <= buffer_offset,
        capacity * stride + buffer_offset <= usize::MAX / 2,
        capacity * stride + buffer_offset <= file_len,
    ensures
        ({
            let after = lossy_region(before, kind, capacity, unit_size, stride, slack, producer);
            let r = lossy_open(
                after,
                file_len,
                other_kind,
                other_size,
                other_stride,
                buffer_offset,
                min_capacity,
                tail_align,
            );
            &&& r is Ok <==> other_kind == kind && other_size == unit_size && other_stride
                == stride
            &&& r matches Ok(o) ==> o.capacity == capacity && o.slack == slack && o.generation
                == after[7]
            &&& after.len() == before.len()
            &&& after[5] == producer
            &&& after[16] == 0
            &&& after[17] == 0
            &&& after[32] == 0
            &&& after[7] != before[7]
            &&& after[7] % 2 == 0
        }),
{
    let after = lossy_region(before, kind, capacity, unit_size, stride, slack, producer);
    assert(capacity * stride >= 0) by (nonlinear_arith);
    assert(after[0] == 0x3162_725f_7473_7572);
    assert(after[1] == 1 + 0x1_0000_0000 * kind);
    assert(after[2] == capacity);
    assert(after[3] == unit_size);
    assert(after[4] as int % 0x1_0000_0000 == usize::BITS);
    assert(after[7] % 2 == 0);
    assert(after[18] == slack);
    assert(after[19] == stride);
    assert(after[16] == 0);
    assert(0int % tail_align as int == 0);
    assert(file_len >= 384);
    a_header_is_accepted_for_what_it_says(
        after,
        file_len,
        other_kind,
        other_size,
        min_capacity,
        ShmError::KindMismatch,
    );
    a_lossy_ring_opens_for_what_it_holds(
        after,
        file_len,
        other_kind,
        other_size,
        other_stride,
        buffer_offset,
        min_capacity,
        tail_align,
    );
}

/// An anchored ring that was made opens, as what it was made as and as nothing
/// else: empty and open, with a producer and a table of free slots.
pub proof fn an_anchored_ring_that_was_made_opens(
    before: Seq<u64>,
    kind: u32,
    capacity: usize,
    unit_size: usize,
    stride: usize,
    table_offset: usize,
    max_anchors: usize,
    slack: u64,
    producer: u64,
    file_len: u64,
    other_kind: u32,
    other_size: usize,
    other_stride: usize,
    min_capacity: usize,
    tail_align: u64,
    slot: int,
)
    requires
        table_offset % 8 == 0,
        384 <= table_offset,
        before.len() >= table_offset / 8 + 16 * max_anchors,
        capacity > 0,
        is_pow2(capacity as int),
        capacity >= min_capacity,
        unit_size > 0,
        slack < capacity,
        1 <= max_anchors <= u32::MAX,
        tail_align > 0,
        capacity * stride + table_offset + max_anchors * 128 <= usize::MAX / 2,
        capacity * stride + table_offset + max_anchors * 128 <= file_len,
        0 <= slot < max_anchors,
    ensures
        ({
            let after = anchored_region(
                before,
                kind,
                capacity,
                unit_size,
                stride,
                table_offset,
                max_anchors,
                slack,
                producer,
            );
            let r = anchored_open(
                after,
                file_len,
                other_kind,
                other_size,
                other_stride,
                table_offset,
                min_capacity,
                tail_align,
            );
            &&& r is Ok <==> other_kind == kind && other_size == unit_size && other_stride
                == stride
            &&& r matches Ok(o) ==> o.capacity == capacity && o.max_anchors == max_anchors
                && o.generation == after[7] && (kind == 9 ==> o.slack == slack)
            &&& after.len() == before.len()
            &&& after[5] == producer
            &&& after[16] == 0
            &&& after[17] == 0
            &&& after[table_offset as int / 8 + 16 * slot] == 0
            &&& after[table_offset as int / 8 + 16 * slot + 1] == 0
            &&& after[table_offset as int / 8 + 16 * slot + 2] == u64::MAX
            &&& after[7] != before[7]
            &&& after[7] % 2 == 0
        }),
{
    let after = anchored_region(
        before,
        kind,
        capacity,
        unit_size,
        stride,
        table_offset,
        max_anchors,
        slack,
        producer,
    );
    assert(capacity * stride >= 0) by (nonlinear_arith);
    assert(after[0] == 0x3162_725f_7473_7572);
    assert(after[1] == 1 + 0x1_0000_0000 * kind);
    assert(after[2] == capacity);
    assert(after[3] == unit_size);
    assert(after[4] == usize::BITS + 0x1_0000_0000 * max_anchors);
    assert(after[16] == 0);
    assert(0int % tail_align as int == 0);
    a_header_is_accepted_for_what_it_says(
        after,
        file_len,
        other_kind,
        other_size,
        min_capacity,
        ShmError::KindMismatch,
    );
    an_anchored_ring_opens_for_what_it_holds(
        after,
        file_len,
        other_kind,
        other_size,
        other_stride,
        table_offset,
        min_capacity,
        tail_align,
    );
}

/// The cursors of a two-party ring in a region.
pub open spec fn stands_for<B>(region: Seq<u64>, shared: Shared<B>, capacity: usize) -> bool {
    &&& region.len() >= 48
    &&& shared.inv()
    &&& shared.mask + 1 == capacity
    &&& region[16] == shared.write_cursor
    &&& region[32] == shared.read_cursor
}

/// A consumer that attaches to a two-party ring, by a claim or by force, goes on
/// where its predecessor's published cursor stands: it belongs to the ring, it
/// has unread exactly what was published and not given back, and nothing that
/// the predecessor gave back is handed out again. The ring itself stays as it
/// is.
pub proof fn an_attached_consumer_goes_on<B>(
    before: Seq<u64>,
    after: Seq<u64>,
    opened: PairOpened,
    token: u64,
    force: bool,
    pid: u32,
    core: ConsumerCore,
    anchor: ShmAnchor,
    shared: Shared<B>,
    predecessor: ConsumerCore,
)
    requires
        stands_for(before, shared, opened.capacity),
        predecessor.inv(&shared),
        consumer_attached(before, after, Ok(opened), token, force, pid, Ok((core, anchor))),
    ensures
        core.inv(&shared),
        core.read_cursor == predecessor.published,
        core.read_cursor == before[32],
        core.published == before[32],
        core.unread(&shared) == lag_usize(shared.write_cursor, shared.read_cursor),
        stands_for(after, shared, opened.capacity),
        after[6] == token,
        after[5] == before[5],
        forall|i: int| 0 <= i < before.len() && i != 6 ==> #[trigger] after[i] == before[i],
{
    a_word_is_read_as_it_is(before[16]);
    a_word_is_read_as_it_is(before[32]);
}

/// A producer that attaches to a two-party ring, by a claim or by force, goes on
/// right behind what was published: it belongs to the ring and overwrites
/// nothing that is unread. The ring itself stays as it is.
pub proof fn an_attached_producer_goes_on<B>(
    before: Seq<u64>,
    after: Seq<u64>,
    opened: PairOpened,
    token: u64,
    force: bool,
    pid: u32,
    core: ProducerCore,
    anchor: ShmAnchor,
    shared: Shared<B>,
)
    requires
        stands_for(before, shared, opened.capacity),
        producer_attached(before, after, Ok(opened), token, force, pid, Ok((core, anchor))),
    ensures
        core.inv(&shared),
        core.write_cursor == before[16],
        core.read_cursor_cache == before[32],
        stands_for(after, shared, opened.capacity),
        after[5] == token,
        after[33] == 0,
        forall|i: int| 0 <= i < before.len() && i != 5 && i != 33 ==> #[trigger] after[i] == before[i],
{
    a_word_is_read_as_it_is(before[16]);
    a_word_is_read_as_it_is(before[32]);
}

/// Whoever takes a two-party ring over as a whole goes on on both sides.
pub proof fn a_recovered_pair_goes_on<B>(
    before: Seq<u64>,
    after: Seq<u64>,
    opened: PairOpened,
    producer: u64,
    consumer: u64,
    pid: u32,
    pair: ShmPair,
    shared: Shared<B>,
    predecessor: ConsumerCore,
)
    requires
        stands_for(before, shared, opened.capacity),
        predecessor.inv(&shared),
        pair_recovered(before, after, Ok(opened), producer, consumer, pid, Ok(pair)),
    ensures
        pair.producer.inv(&shared),
        pair.producer.write_cursor == before[16],
        pair.consumer.inv(&shared),
        pair.consumer.read_cursor == predecessor.published,
        pair.consumer.read_cursor == before[32],
        pair.consumer.unread(&shared) == lag_usize(shared.write_cursor, shared.read_cursor),
        stands_for(after, shared, opened.capacity),
        after[5] == producer,
        after[6] == consumer,
        after[33] == 0,
{
    a_word_is_read_as_it_is(before[16]);
    a_word_is_read_as_it_is(before[32]);
}

/// The two sides of a two-party ring that was made belong to the empty ring.
pub proof fn a_pair_that_was_made_is_empty<B>(
    before: Seq<u64>,
    after: Seq<u64>,
    kind: PairKind,
    capacity: usize,
    producer: u64,
    consumer: u64,
    pid: u32,
    pair: ShmPair,
    shared: Shared<B>,
)
    requires
        before.len() >= 48,
        crate::arith::ring_capacity(capacity as int),
        pair_created(before, after, kind, capacity as int, producer, consumer, pid, Ok(pair)),
        shared.mask + 1 == capacity,
        shared.write_cursor == 0,
        shared.read_cursor == 0,
    ensures
        stands_for(after, shared, capacity),
        pair.producer.inv(&shared),
        pair.consumer.inv(&shared),
        pair.consumer.unread(&shared) == 0,
        after[5] == producer,
        after[6] == consumer,
{
    a_word_is_read_as_it_is(0);
}

/// A role is given to whoever asks while nobody holds it, and refused, with the
/// region left alone, while somebody does. Who takes it by force gets it.
pub proof fn a_role_is_given_while_it_is_free(
    before: Seq<u64>,
    after: Seq<u64>,
    opened: PairOpened,
    token: u64,
    force: bool,
    pid: u32,
    r: Result<(ConsumerCore, ShmAnchor), ShmError>,
    after_producer: Seq<u64>,
    p: Result<(ProducerCore, ShmAnchor), ShmError>,
)
    requires
        before.len() >= 48,
        before[7] == opened.generation,
        consumer_attached(before, after, Ok(opened), token, force, pid, r),
        producer_attached(before, after_producer, Ok(opened), token, force, pid, p),
    ensures
        r is Ok <==> force || before[6] == 0,
        r is Err ==> after == before && r->Err_0 == ShmError::RoleHeld,
        r is Ok ==> after[6] == token && (r->Ok_0).1.token == token && (r->Ok_0).1.owner_pid == pid,
        p is Ok <==> force || before[5] == 0,
        p is Err ==> after_producer == before && p->Err_0 == ShmError::RoleHeld,
        p is Ok ==> after_producer[5] == token && (p->Ok_0).1.token == token && (
        p->Ok_0).1.owner_pid == pid,
{
}

/// A role that its holder lets go is free; one that somebody else holds by now
/// is left alone.
pub proof fn a_role_that_is_let_go_is_free(region: Seq<u64>, token: u64)
    requires
        region.len() >= 48,
        token != 0,
    ensures
        region[5] == token ==> released(region, Role::Producer, token) == region.update(5, 0),
        region[5] != token ==> released(region, Role::Producer, token) == region,
        region[6] == token ==> released(region, Role::Consumer, token) == region.update(6, 0),
        region[6] != token ==> released(region, Role::Consumer, token) == region,
{
}

/// A type can be the element of a dense ring exactly where its values have
/// bytes and an alignment of at most 128, and of a ring with stamped slots where
/// a slot, with its stamp, also has a size that can be counted.
pub proof fn an_element_has_bytes_and_fits(elem: ElemType)
    requires
        elem.align >= 1,
    ensures
        elem_fault(elem) is None <==> elem.size != 0 && elem.align <= 128,
        elem.size == 0 ==> elem_fault(elem) == Some(ShmError::ZeroSized) && slot_fault(elem) == Some(
            ShmError::ZeroSized,
        ),
        elem.size != 0 && elem.align > 128 ==> elem_fault(elem) == Some(ShmError::Overaligned)
            && slot_fault(elem) == Some(ShmError::Overaligned),
        elem.size <= 0x1000_0000 ==> (slot_fault(elem) is None <==> elem.size != 0 && elem.align
            <= 128),
        slot_fault(elem) is None ==> stride_of(elem) >= elem.size + 8 && stride_of(elem)
            <= usize::MAX && stride_of(elem) < elem.size + 2 * 128,
{
    crate::seqlock::lemma_stride(elem.size as int, elem.align as int);
}

/// A consumer joins a gating ring that opens exactly where the producer is not
/// gone, a slot is free, and the ring is still the one that was opened. It gets
/// the first free slot, under a new epoch and with its token, and is handed what
/// is published from then on; everything but that slot stays as it is.
pub proof fn a_consumer_joins_where_a_slot_is_free(
    before: Seq<u64>,
    after: Seq<u64>,
    k: GateKind,
    opened: GateOpened,
    token: u64,
    pid: u32,
    r: Result<(GateConsumer, GateShmConsumer), ShmError>,
)
    requires
        fits(opened, before),
        gate_consumer_attached(before, after, k, Ok(opened), token, pid, r),
        before[16] <= crate::arith::MAX_CURSOR,
    ensures
        ({
            let t = opened.table_offset as int / 8;
            let n = opened.max_slots as int;
            &&& r is Ok <==> before[17] == 0 && before[7] == opened.generation && exists|j: int|
                0 <= j < n && #[trigger] before[t + 16 * j + 1] as int % 0x1_0000_0000 == 0
            &&& before[17] != 0 ==> r == Err::<(GateConsumer, GateShmConsumer), ShmError>(
                ShmError::Closed,
            ) && after == before
            &&& r matches Ok(joined) ==> {
                let s = joined.1.claim.slot as int;
                let w = t + 16 * s;
                &&& 0 <= s < n
                &&& before[w + 1] as int % 0x1_0000_0000 == 0
                &&& forall|j: int|
                    0 <= j < s ==> #[trigger] before[t + 16 * j + 1] as int % 0x1_0000_0000 != 0
                &&& after[w] == token
                &&& after[w + 1] as int % 0x1_0000_0000 == 1
                &&& after[w + 1] as int / 0x1_0000_0000 == joined.1.claim.epoch
                &&& joined.1.claim.epoch != before[w + 1] as int / 0x1_0000_0000
                &&& after[w + 2] == before[16]
                &&& joined.1.claim.token == token
                &&& joined.1.owner_pid == pid
                &&& joined.0.read_cursor == before[16]
                &&& joined.0.published == before[16]
                &&& joined.0.mask + 1 == opened.capacity
                &&& joined.0.slot.at() == s
                &&& forall|i: int|
                    0 <= i < before.len() && !(w <= i < w + 3) ==> #[trigger] after[i] == before[i]
            }
        }),
{
    let table = opened.table_offset as int;
    let t = table / 8;
    let n = opened.max_slots as int;
    assert forall|j: int| 0 <= j < n implies #[trigger] control_at(before, table, j) == before[t + 16
        * j + 1] by {}
    if first_free(before, table, n, n) {
        assert forall|j: int| 0 <= j < n implies #[trigger] before[t + 16 * j + 1] as int
            % 0x1_0000_0000 != 0 by {
            assert(state_of(control_at(before, table, j)) != 0);
        }
    } else if before[17] == 0 && before[7] == opened.generation {
        let joined = r->Ok_0;
        let s = joined.1.claim.slot as int;
        assert(state_of(control_at(before, table, s)) == 0);
        assert(before[t + 16 * s + 1] as int % 0x1_0000_0000 == 0);
        assert forall|j: int| 0 <= j < s implies #[trigger] before[t + 16 * j + 1] as int
            % 0x1_0000_0000 != 0 by {
            assert(state_of(control_at(before, table, j)) != 0);
        }
    }
}

/// A producer that attaches to a gating ring, by a claim or by force, goes on
/// right behind what was published and opens the ring again. It has the role,
/// nothing that was published is touched, and a ring of bytes no longer says
/// that its producer waits. What it declares in a ring with observers is at
/// least what was ever declared or committed there.
pub proof fn an_attached_gating_producer_goes_on(
    before: Seq<u64>,
    after: Seq<u64>,
    k: GateKind,
    opened: GateOpened,
    token: u64,
    force: bool,
    pid: u32,
    r: Result<(GateProducer, GateShmProducer, u64), ShmError>,
)
    requires
        before.len() >= 49,
        before[7] == opened.generation,
        gate_producer_attached(before, after, k, Ok(opened), token, force, pid, r),
    ensures
        r is Ok <==> force || before[5] == 0,
        r is Err ==> after == before && r->Err_0 == ShmError::RoleHeld,
        r matches Ok(attached) ==> {
            &&& attached.0.next_seq == before[16]
            &&& attached.0.mask == opened.capacity - 1
            &&& attached.1.token == token
            &&& attached.1.owner_pid == pid
            &&& after[5] == token
            &&& after[16] == before[16]
            &&& after[17] == 0
            &&& after[32] == before[32]
            &&& k.bytes ==> after[18] == 0
            &&& !k.bytes ==> after[18] == before[18]
            &&& k.bytes && k.anchored ==> attached.2 >= before[16] && attached.2 >= before[32] && (
            attached.2 == before[16] || attached.2 == before[32])
            &&& k.bytes && k.anchored && before[32] != before[16] ==> after[48] == before[16]
            &&& k.bytes && k.anchored && before[32] == before[16] ==> after[48] == before[48]
            &&& forall|i: int|
                0 <= i < before.len() && i != 5 && i != 17 && i != 18 && !(i == 48 && k.bytes
                    && k.anchored) ==> #[trigger] after[i] == before[i]
        },
{
}

/// A producer that attaches to a lossy ring, by a claim or by force, goes on
/// right behind what was published, publishes every push, and opens the ring
/// again.
pub proof fn an_attached_lossy_producer_goes_on(
    before: Seq<u64>,
    after: Seq<u64>,
    opened: BcastOpened,
    token: u64,
    force: bool,
    pid: u32,
    r: Result<(broadcast::Producer, BcastProducerAnchor), ShmError>,
    after_bytes: Seq<u64>,
    b: Result<(broadcast_bytes::BytesProducer, BcastProducerAnchor), ShmError>,
)
    requires
        before.len() >= 49,
        before[7] == opened.generation,
        opened.capacity > 0,
        attached(
            before,
            after,
            Ok(opened),
            false,
            |capacity: usize| resuming(before, capacity),
            token,
            force,
            pid,
            r,
        ),
        attached(
            before,
            after_bytes,
            Ok(opened),
            true,
            |capacity: usize| resuming_bytes(before, capacity, floor_of(before)),
            token,
            force,
            pid,
            b,
        ),
    ensures
        r is Ok <==> force || before[5] == 0,
        r is Err ==> after == before && r->Err_0 == ShmError::RoleHeld,
        r matches Ok(made) ==> {
            &&& made.0.next_seq == before[16]
            &&& made.0.mask + 1 == opened.capacity
            &&& made.0.tail_batch == 1
            &&& made.0.unpublished == 0
            &&& made.1.token == token
            &&& made.1.owner_pid == pid
            &&& after == before.update(5, token).update(17, 0)
        },
        b is Ok <==> force || before[5] == 0,
        b matches Ok(made) ==> {
            &&& made.0.next == before[16]
            &&& made.0.mask + 1 == opened.capacity
            &&& made.0.intent_floor >= before[16]
            &&& made.0.intent_floor >= before[32]
            &&& made.0.intent_floor == before[16] || made.0.intent_floor == before[32]
            &&& after_bytes[5] == token
            &&& after_bytes[17] == 0
            &&& after_bytes[16] == before[16]
            &&& after_bytes[32] == before[32]
            &&& before[32] != before[16] ==> after_bytes[48] == before[16]
            &&& before[32] == before[16] ==> after_bytes[48] == before[48]
        },
{
}

/// A region is as long as what stands before the buffer, 128 bytes for each slot
/// of the table, and the units of the buffer. There is one exactly where the
/// file system can count it.
pub proof fn a_length_is_what_it_holds(capacity: int, stride: int, base: int, slots: int)
    ensures
        ({
            let len = capacity * stride + base + 128 * slots;
            let r = len_result(layout_len(capacity, stride, base, slots));
            &&& len <= usize::MAX / 2 && len >= 0 ==> r == Ok::<usize, ShmError>(len as usize)
            &&& usize::MAX / 2 < len <= usize::MAX ==> r == Err::<usize, ShmError>(
                ShmError::LengthLimit,
            )
            &&& len > usize::MAX ==> r == Err::<usize, ShmError>(ShmError::CapacityOverflow)
            &&& len_ok(layout_len(capacity, stride, base, slots)) <==> len <= usize::MAX / 2
            &&& 8 * words_for(len) >= len
            &&& 8 * words_for(len) < len + 8
        }),
{
}

/// A header with a single fault is refused by the name of that fault.
pub proof fn a_fault_is_named(
    header: Seq<u64>,
    file_len: u64,
    kind: u32,
    unit_size: usize,
    min_capacity: usize,
    wrong_kind: ShmError,
)
    requires
        header.len() >= 48,
        header[2] <= usize::MAX,
    ensures
        ({
            let fault = header_fault(
                header,
                file_len,
                kind,
                unit_size,
                min_capacity,
                wrong_kind,
            );
            let long = file_len >= 384;
            let still = header[7] % 2 == 0;
            let magic = header[0] == 0x3162_725f_7473_7572;
            let version = header[1] as int % 0x1_0000_0000 == 1;
            let right_kind = header[1] as int / 0x1_0000_0000 == kind;
            let unit = header[3] == unit_size;
            let arch = header[4] as int % 0x1_0000_0000 == usize::BITS;
            let capacity = header[2] != 0 && is_pow2(header[2] as int) && header[2] >= min_capacity;
            &&& !long ==> fault == Some(ShmError::TooSmall)
            &&& long && !still ==> fault == Some(ShmError::Initializing)
            &&& long && still && !magic ==> fault == Some(ShmError::BadMagic)
            &&& long && still && magic && !version ==> fault == Some(ShmError::BadVersion)
            &&& long && still && magic && version && !right_kind ==> fault == Some(wrong_kind)
            &&& long && still && magic && version && right_kind && unit_size != 0 && !unit
                ==> fault == Some(ShmError::UnitSizeMismatch)
            &&& long && still && magic && version && right_kind && unit_size != 0 && unit && !arch
                ==> fault == Some(ShmError::ArchMismatch)
            &&& long && still && magic && version && right_kind && unit_size != 0 && unit && arch
                && !capacity ==> fault == Some(ShmError::CorruptCapacity)
            &&& long && still && magic && version && right_kind && unit_size != 0 && unit && arch
                && capacity ==> fault is None
        }),
{
    a_word_is_read_as_it_is(header[2]);
}

/// A ring whose header is accepted is refused by the name of what else is wrong
/// with it.
pub proof fn a_fault_of_a_ring_is_named(
    region: Seq<u64>,
    file_len: u64,
    kind: u32,
    unit_size: usize,
    stride: usize,
    offset: usize,
    min_capacity: usize,
    align: u64,
)
    requires
        region.len() >= 48,
        region[2] <= usize::MAX,
        align > 0,
        header_fault(region, file_len, kind, unit_size, min_capacity, ShmError::KindMismatch) is None,
    ensures
        ({
            let slots = region[4] as int / 0x1_0000_0000;
            let g = gating_open(region, file_len, kind, unit_size, min_capacity, align);
            let g_len = region[2] * unit_size + 384 + slots * 128;
            let l = lossy_open(
                region,
                file_len,
                kind,
                unit_size,
                stride,
                offset,
                min_capacity,
                align,
            );
            let l_len = region[2] * stride + offset;
            let a = anchored_open(
                region,
                file_len,
                kind,
                unit_size,
                stride,
                offset,
                min_capacity,
                align,
            );
            let a_len = region[2] * stride + offset + slots * 128;
            let slack = region[18] < region[2];
            let aligned = region[16] as int % align as int == 0;
            &&& slots == 0 ==> g == Err::<SpmcOpened, ShmError>(ShmError::CorruptMaxConsumers)
            &&& slots > 0 && g_len > usize::MAX / 2 ==> g == Err::<SpmcOpened, ShmError>(
                ShmError::CorruptGeometry,
            )
            &&& slots > 0 && file_len < g_len <= usize::MAX / 2 ==> g == Err::<
                SpmcOpened,
                ShmError,
            >(ShmError::Truncated)
            &&& slots > 0 && g_len <= usize::MAX / 2 && g_len <= file_len && !aligned ==> g == Err::<
                SpmcOpened,
                ShmError,
            >(ShmError::UnalignedCursors)
            &&& !slack ==> l == Err::<BcastOpened, ShmError>(ShmError::CorruptSlack)
            &&& slack && region[19] != stride ==> l == Err::<BcastOpened, ShmError>(
                ShmError::StrideMismatch,
            )
            &&& slack && region[19] == stride && l_len > usize::MAX / 2 ==> l == Err::<
                BcastOpened,
                ShmError,
            >(ShmError::CorruptGeometry)
            &&& slack && region[19] == stride && file_len < l_len <= usize::MAX / 2 ==> l == Err::<
                BcastOpened,
                ShmError,
            >(ShmError::Truncated)
            &&& slack && region[19] == stride && l_len <= usize::MAX / 2 && l_len <= file_len
                && !aligned ==> l == Err::<BcastOpened, ShmError>(ShmError::UnalignedTail)
            &&& slots == 0 ==> a == Err::<AnchOpened, ShmError>(ShmError::CorruptMaxAnchors)
            &&& slots > 0 && kind == 9 && !slack ==> a == Err::<AnchOpened, ShmError>(
                ShmError::CorruptSlack,
            )
            &&& slots > 0 && (kind != 9 || slack) && region[19] != stride ==> a == Err::<
                AnchOpened,
                ShmError,
            >(ShmError::StrideMismatch)
            &&& slots > 0 && (kind != 9 || slack) && region[19] == stride && file_len < a_len
                <= usize::MAX / 2 ==> a == Err::<AnchOpened, ShmError>(ShmError::Truncated)
            &&& slots > 0 && (kind != 9 || slack) && region[19] == stride && a_len <= usize::MAX / 2
                && a_len <= file_len && !aligned ==> a == Err::<AnchOpened, ShmError>(
                ShmError::UnalignedTail,
            )
        }),
{
    a_word_is_read_as_it_is(region[2]);
}

/// The cursors of a two-party ring are judged by the first look during which
/// the producer did not move; a ring on which it always did is taken for alive.
/// Every look before that one must have found them at record boundaries.
pub proof fn the_first_still_look_decides(
    samples: Seq<CursorSample>,
    still: int,
    cursor_align: usize,
    capacity: usize,
)
    requires
        cursor_align > 0,
        0 <= still <= samples.len(),
        samples.len() <= 64,
        forall|i: int|
            0 <= i < still ==> (#[trigger] samples[i]).write_before != samples[i].write_after
                && samples[i].write_before as int % cursor_align as int == 0 && samples[i].read as int
                % cursor_align as int == 0,
        still < samples.len() ==> samples[still].write_before == samples[still].write_after,
    ensures
        ({
            let fault = samples_fault(samples, 0, cursor_align, capacity);
            &&& still == samples.len() ==> fault is None
            &&& still < samples.len() ==> {
                let s = samples[still];
                let aligned = s.write_before as int % cursor_align as int == 0 && s.read as int
                    % cursor_align as int == 0;
                &&& !aligned ==> fault == Some(ShmError::UnalignedCursors)
                &&& aligned && lag_usize(s.write_before, s.read) > capacity ==> fault == Some(
                    ShmError::OverfullCursors,
                )
                &&& aligned && lag_usize(s.write_before, s.read) <= capacity ==> fault is None
            }
        }),
{
    lemma_looks(samples, 0, still, cursor_align, capacity);
}

proof fn lemma_looks(
    samples: Seq<CursorSample>,
    i: int,
    still: int,
    cursor_align: usize,
    capacity: usize,
)
    requires
        cursor_align > 0,
        0 <= i <= still <= samples.len(),
        samples.len() <= 64,
        forall|i: int|
            0 <= i < still ==> (#[trigger] samples[i]).write_before != samples[i].write_after
                && samples[i].write_before as int % cursor_align as int == 0 && samples[i].read as int
                % cursor_align as int == 0,
        still < samples.len() ==> samples[still].write_before == samples[still].write_after,
    ensures
        samples_fault(samples, i, cursor_align, capacity) == samples_fault(
            samples,
            still,
            cursor_align,
            capacity,
        ),
    decreases still - i,
{
    if i < still {
        lemma_looks(samples, i + 1, still, cursor_align, capacity);
    }
}

/// A look at a mapped ring finds fault exactly where the tail does not stand at
/// a record boundary or the ring is another one by now.
pub proof fn a_look_finds_what_changed(
    tail: u64,
    align: u64,
    validated: u64,
    generation: u64,
    unaligned: ShmError,
)
    requires
        align > 0,
    ensures
        look_fault(tail, align, validated, generation, unaligned) is None <==> tail as int
            % align as int == 0 && generation == validated,
        tail as int % align as int != 0 ==> look_fault(
            tail,
            align,
            validated,
            generation,
            unaligned,
        ) == Some(unaligned),
        tail as int % align as int == 0 && generation != validated ==> look_fault(
            tail,
            align,
            validated,
            generation,
            unaligned,
        ) == Some(ShmError::ReinitializedWhileReading),
{
}

/// A slot of a gating ring that opens is retired exactly where it is there and
/// held under the epoch that was given: it is marked under the next epoch, so
/// that it counts no longer and is not given out. Nothing else changes.
pub proof fn a_slot_is_retired_under_its_epoch(
    before: Seq<u64>,
    after: Seq<u64>,
    k: GateKind,
    opened: GateOpened,
    slot: usize,
    epoch: u32,
    r: Result<(), ShmError>,
)
    requires
        fits(opened, before),
        gate_detached(before, after, k, Ok(opened), slot, epoch, r),
    ensures
        ({
            let w = opened.table_offset as int / 8 + 16 * slot + 1;
            &&& r is Ok <==> slot < opened.max_slots && before[w] == 1 + 0x1_0000_0000 * epoch
            &&& r is Err ==> after == before
            &&& r is Ok ==> {
                &&& after[w] as int % 0x1_0000_0000 == 2
                &&& after[w] as int / 0x1_0000_0000 == epoch.wrapping_add(1)
                &&& forall|i: int|
                    0 <= i < before.len() && i != w ==> #[trigger] after[i] == before[i]
            }
            &&& slot < opened.max_slots && r is Err ==> r->Err_0 == ShmError::EpochMismatch
        }),
{
    if slot < opened.max_slots {
        let w = opened.table_offset as int / 8 + 16 * slot + 1;
        assert(control_at(before, opened.table_offset as int, slot as int) == before[w]);
    }
}

/// Who lets a slot go leaves it free, without a lease and without a cursor,
/// under the epoch at which it was taken; a control word or a lease that is
/// somebody else's by now is left alone.
pub proof fn a_slot_that_is_let_go_is_free(region: Seq<u64>, table_offset: int, claim: SlotClaim)
    requires
        table_fits(region, table_offset, claim.slot + 1),
        claim.token != 0,
    ensures
        ({
            let w = table_offset / 8 + 16 * claim.slot;
            let after = without_claim(region, table_offset, claim);
            &&& after[w + 2] == u64::MAX
            &&& region[w] == claim.token ==> after[w] == 0
            &&& region[w] != claim.token ==> after[w] == region[w]
            &&& region[w + 1] == 1 + 0x1_0000_0000 * claim.epoch ==> after[w + 1] == 0x1_0000_0000
                * claim.epoch
            &&& region[w + 1] != 1 + 0x1_0000_0000 * claim.epoch ==> after[w + 1] == region[w + 1]
            &&& forall|i: int|
                0 <= i < region.len() && !(w <= i < w + 3) ==> #[trigger] after[i] == region[i]
        }),
{
}

/// After a ring was taken over, every slot but the first is free, without a
/// lease and without a cursor; every slot has a new epoch; and the ring is
/// another one to whoever looked at it before.
pub proof fn a_recovered_table_is_free(
    before: Seq<u64>,
    after: Seq<u64>,
    opened: GateOpened,
    consumer: u64,
    claim: SlotClaim,
    resume: u64,
    slot: int,
)
    requires
        fits(opened, before),
        table_recovered(before, after, opened, consumer, claim, resume),
        0 <= slot < opened.max_slots,
    ensures
        ({
            let w = opened.table_offset as int / 8 + 16 * slot;
            &&& slot > 0 ==> after[w] == 0
            &&& slot > 0 ==> after[w + 1] as int % 0x1_0000_0000 == 0
            &&& slot > 0 ==> after[w + 2] == u64::MAX
            &&& slot == 0 ==> after[w] == consumer
            &&& slot == 0 ==> after[w + 1] as int % 0x1_0000_0000 == 1
            &&& after[w + 1] as int / 0x1_0000_0000 != before[w + 1] as int / 0x1_0000_0000
            &&& after[7] != before[7]
            &&& after[7] % 2 == 0
            &&& after[16] == before[16]
            &&& claim.slot == 0
            &&& claim.token == consumer
        }),
{
    let t = opened.table_offset as int / 8;
    let w = t + 16 * slot;
    assert((w - t) % 16 == 0);
    assert((w + 1 - t) % 16 == 1);
    assert((w + 2 - t) % 16 == 2);
    let w1 = before[w + 1];
    let e = epoch_of(w1);
    assert(e == w1 as int / 0x1_0000_0000);
    let zero = before[t + 1];
    assert(epoch_of(zero) == zero as int / 0x1_0000_0000);
}

/// A lossy ring that was made starts empty, with a producer that publishes every
/// push and holds the role.
pub proof fn a_lossy_ring_that_was_made_is_empty(
    before: Seq<u64>,
    after: Seq<u64>,
    kind: u32,
    capacity: usize,
    unit_size: usize,
    stride: usize,
    buffer_offset: usize,
    slack: u64,
    token: u64,
    pid: u32,
    r: Result<(broadcast::Producer, BcastProducerAnchor), ShmError>,
)
    requires
        before.len() >= 48,
        capacity > 0,
        created(
            before,
            after,
            create_result(
                before,
                kind,
                capacity,
                unit_size,
                stride,
                buffer_offset,
                slack,
                token,
            ),
            fresh_producer(capacity),
            token,
            pid,
            r,
        ),
    ensures
        r is Ok <==> capacity * stride + buffer_offset <= usize::MAX / 2,
        r is Err ==> after == before,
        r matches Ok(made) ==> {
            &&& made.0.next_seq == 0
            &&& made.0.unpublished == 0
            &&& made.0.tail_batch == 1
            &&& made.0.mask + 1 == capacity
            &&& made.1.token == token
            &&& made.1.owner_pid == pid
            &&& after[5] == token
            &&& after[16] == 0
            &&& after[17] == 0
            &&& after[18] == slack
            &&& after[19] == stride
        },
{
    assert(capacity * stride >= 0) by (nonlinear_arith);
}

/// Where the elements of rings lie in a region: packed elements right behind the
/// table, one after the other, and stamped slots at their stride from the start
/// of the buffer, each with its element at the offset that the alignment asks
/// for.
pub proof fn elements_lie_where_they_are_looked_for(
    elem: ElemType,
    capacity: usize,
    buffer_offset: usize,
    table_offset: usize,
    max_slots: usize,
    s: int,
)
    requires
        capacity > 0,
        is_pow2(elem.align as int),
        slot_fault(elem) is None,
        buffer_offset % 8 == 0,
        table_offset / 8 + 16 * max_slots <= usize::MAX,
        0 <= s,
    ensures
        ({
            let d = dense(elem.size, capacity, table_offset, max_slots);
            let g = geometry(elem, capacity, buffer_offset);
            let offset = if elem.align > 8 {
                elem.align as int
            } else {
                8
            };
            &&& d.base == table_offset as int / 8 + 16 * max_slots
            &&& d.at(s) == s % capacity as int * elem.size
            &&& g.base * 8 == buffer_offset
            &&& g.payload * 8 == offset
            &&& g.stride * 8 >= offset + elem.size
            &&& g.stride * 8 < 2 * offset + elem.size
            &&& g.stride * 8 % offset == 0
            &&& 8 * g.words >= elem.size
            &&& 8 * g.words < elem.size + 8
            &&& g.at(s) == g.base + s * g.stride
            &&& g.mask + 1 == capacity
        }),
{
    lemma_geometry(elem);
    crate::seqlock::lemma_stride(elem.size as int, elem.align as int);
    reveal(is_pow2);
    crate::seqlock::a_payload_is_aligned(elem.align as int);
}

} // verus!
