//! Elements packed in the buffer of a region: the gating ring over shared
//! memory.
//!
//! An element is a run of bytes, and the elements follow one another without a
//! gap, whatever their size.

use crate::arith::{lemma_distinct_slots, ring_capacity, slot_index, MAX_CURSOR};
use crate::cursor::a_batch_is_an_eighth;
use crate::gate::{
    hand_over, holds_back, room_is_counted_from_the_slowest, GateConsumer, GateProducer,
};
use crate::gate_shm::{gate_of, GateShmConsumer, GateShmProducer};
use crate::handler::{lemma_took_run, took_runs, Handler};
use crate::region::{
    layout_len, read_u64, table_fits, word, words_for, OFF_CLOSED, OFF_WRITE_CURSOR,
};
use crate::region_lanes::{bytes_of, load_byte, store_byte, word_byte};
use crate::registry::publish_batch_elems;
use crate::spmc::{drained, Closed, Consumer, PopRef, Producer, WriteSlot};
use vstd::arithmetic::div_mod::lemma_mod_bound;
use vstd::prelude::*;

verus! {

/// `bytes` with a run of bytes laid out from `at` on.
pub open spec fn with_run(bytes: Seq<u8>, at: int, run: Seq<u8>) -> Seq<u8> {
    Seq::new(
        bytes.len(),
        |i: int|
            if at <= i < at + run.len() {
                run[i - at]
            } else {
                bytes[i]
            },
    )
}

/// Where the elements of a ring are.
#[derive(Clone, Copy)]
pub struct DenseGeometry {
    /// The word at which the first element starts.
    pub base: usize,
    /// Bytes of an element.
    pub unit: usize,
    /// The number of elements, less one.
    pub mask: u64,
}

impl DenseGeometry {
    /// The number of elements.
    pub open spec fn cap(&self) -> int {
        self.mask + 1
    }

    /// Words of the buffer.
    pub open spec fn words(&self) -> int {
        (self.cap() * self.unit + 7) / 8
    }

    /// The elements lie in the region past the header.
    pub open spec fn fits(&self, region: Seq<u64>) -> bool {
        &&& ring_capacity(self.cap())
        &&& self.unit > 0
        &&& self.base >= 48
        &&& self.base + self.words() <= region.len()
    }

    /// The bytes of the buffer, those that fill its last word up included.
    pub open spec fn bytes(&self, region: Seq<u64>) -> Seq<u8> {
        bytes_of(region, self.base as int, 8 * self.words())
    }

    /// Where the element of message `s` starts.
    pub open spec fn at(&self, s: int) -> int {
        (s % self.cap()) * self.unit
    }

    /// The element of message `s`.
    pub open spec fn element_of(&self, region: Seq<u64>, s: int) -> Seq<u8> {
        self.bytes(region).subrange(self.at(s), self.at(s) + self.unit)
    }

    /// An element lies in the buffer.
    proof fn lemma_at(&self, s: int)
        requires
            self.cap() > 0,
            self.unit > 0,
        ensures
            0 <= self.at(s),
            self.at(s) + self.unit <= self.cap() * self.unit <= 8 * self.words(),
    {
        lemma_mod_bound(s, self.cap());
        let i = s % self.cap();
        let unit = self.unit as int;
        let cap = self.cap();
        assert(0 <= i * unit && i * unit + unit <= cap * unit) by (nonlinear_arith)
            requires
                0 <= i < cap,
                0 < unit,
        ;
    }

    /// Two elements lie apart.
    proof fn lemma_apart(&self, s: int, t: int)
        requires
            self.cap() > 0,
            self.unit > 0,
            s % self.cap() != t % self.cap(),
        ensures
            self.at(s) + self.unit <= self.at(t) || self.at(t) + self.unit <= self.at(s),
    {
        let i = s % self.cap();
        let j = t % self.cap();
        let unit = self.unit as int;
        if i < j {
            assert(i * unit + unit <= j * unit) by (nonlinear_arith)
                requires
                    i < j,
                    0 < unit,
            ;
        } else {
            assert(j * unit + unit <= i * unit) by (nonlinear_arith)
                requires
                    j < i,
                    0 < unit,
            ;
        }
    }

    /// Where the element of message `s` starts.
    fn locate(&self, region: &[u64], s: u64) -> (r: usize)
        requires
            self.fits(region@),
            s <= MAX_CURSOR,
            region@.len() <= usize::MAX / 8,
        ensures
            r == self.at(s as int),
            r + self.unit <= 8 * self.words(),
            8 * self.words() <= usize::MAX,
    {
        let index: usize = slot_index(s, self.mask);
        proof {
            self.lemma_at(s as int);
        }
        index * self.unit
    }

    /// Store the element of message `s`.
    pub fn write(&self, region: &mut [u64], s: u64, element: &[u8])
        requires
            self.fits(old(region)@),
            element@.len() == self.unit,
            s <= MAX_CURSOR,
            old(region)@.len() <= usize::MAX / 8,
        ensures
            self.bytes(final(region)@) == with_run(
                self.bytes(old(region)@),
                self.at(s as int),
                element@,
            ),
            final(region)@.len() == old(region)@.len(),
            forall|i: int|
                0 <= i < old(region)@.len() && !(self.base <= i < self.base + self.words())
                    ==> #[trigger] final(region)@[i] == old(region)@[i],
    {
        let at: usize = self.locate(region, s);
        let len: usize = region.len();
        let mut i: usize = 0;
        while i < self.unit
            invariant
                i <= self.unit,
                len == region@.len(),
                len == old(region)@.len(),
                self.fits(region@),
                element@.len() == self.unit,
                at + self.unit <= 8 * self.words() <= usize::MAX,
                self.bytes(region@) =~= with_run(
                    self.bytes(old(region)@),
                    at as int,
                    element@.take(i as int),
                ),
                forall|j: int|
                    0 <= j < len && !(self.base <= j < self.base + self.words())
                        ==> #[trigger] region@[j] == old(region)@[j],
            decreases self.unit - i,
        {
            let ghost before = region@;
            store_byte(region, self.base, at + i, element[i]);
            proof {
                let word_at = self.base + (at + i) / 8;
                assert forall|j: int| 0 <= j < 8 * self.words() implies self.bytes(region@)[j] == (
                if j == at + i {
                    element@[i as int]
                } else {
                    self.bytes(before)[j]
                }) by {
                    if j / 8 == (at + i) as int / 8 {
                        assert(word_byte(region@[word_at], j % 8) == (if j % 8 == (at + i) as int
                            % 8 {
                            element@[i as int]
                        } else {
                            word_byte(before[word_at], j % 8)
                        }));
                    }
                }
            }
            i += 1;
        }
        proof {
            assert(element@.take(self.unit as int) =~= element@);
        }
    }

    /// Copy the element of message `s`.
    pub fn read(&self, region: &[u64], s: u64) -> (r: Vec<u8>)
        requires
            self.fits(region@),
            s <= MAX_CURSOR,
            region@.len() <= usize::MAX / 8,
        ensures
            r@ == self.element_of(region@, s as int),
    {
        let at: usize = self.locate(region, s);
        let len: usize = region.len();
        let mut out: Vec<u8> = Vec::new();
        let mut i: usize = 0;
        while i < self.unit
            invariant
                i <= self.unit,
                len == region@.len(),
                self.fits(region@),
                at + self.unit <= 8 * self.words() <= usize::MAX,
                out@ =~= self.bytes(region@).subrange(at as int, at + i),
            decreases self.unit - i,
        {
            out.push(load_byte(region, self.base, at + i));
            i += 1;
        }
        out
    }

    /// Storing an element replaces it and leaves the others alone.
    proof fn lemma_replaced(&self, before: Seq<u64>, after: Seq<u64>, s: int, t: int, element: Seq<u8>)
        requires
            self.cap() > 0,
            self.unit > 0,
            element.len() == self.unit,
            self.bytes(after) == with_run(self.bytes(before), self.at(s), element),
        ensures
            s % self.cap() == t % self.cap() ==> self.element_of(after, t) == element,
            s % self.cap() != t % self.cap() ==> self.element_of(after, t) == self.element_of(
                before,
                t,
            ),
    {
        self.lemma_at(s);
        self.lemma_at(t);
        if s % self.cap() == t % self.cap() {
            assert(self.element_of(after, t) =~= element);
        } else {
            self.lemma_apart(s, t);
            assert(self.element_of(after, t) =~= self.element_of(before, t));
        }
    }
}

/// The elements of a gating ring whose consumer table starts at a byte offset.
pub open spec fn dense(
    unit: usize,
    capacity: usize,
    table_offset: usize,
    max_slots: usize,
) -> DenseGeometry {
    DenseGeometry {
        base: (table_offset / 8 + 16 * max_slots) as usize,
        unit,
        mask: (capacity - 1) as u64,
    }
}

/// The elements of a gating ring whose consumer table starts at a byte offset.
pub fn dense_geometry(
    unit: usize,
    capacity: usize,
    table_offset: usize,
    max_slots: usize,
) -> (r: DenseGeometry)
    requires
        capacity > 0,
        table_offset / 8 + 16 * max_slots <= usize::MAX,
    ensures
        r == dense(unit, capacity, table_offset, max_slots),
{
    DenseGeometry {
        base: table_offset / 8 + 16 * max_slots,
        unit,
        mask: (capacity - 1) as u64,
    }
}

/// The region of a gating ring of elements, fresh or attached to, has room for
/// its elements.
pub proof fn a_sized_region_holds_its_elements(
    region: Seq<u64>,
    unit: usize,
    capacity: usize,
    table_offset: usize,
    max_slots: usize,
)
    requires
        unit > 0,
        ring_capacity(capacity as int),
        table_offset >= 384,
        table_offset % 8 == 0,
        words_for(
            layout_len(capacity as int, unit as int, table_offset as int, max_slots as int),
        ) <= region.len() <= usize::MAX / 8,
    ensures
        dense_fit(
            region,
            table_offset as int,
            max_slots as int,
            dense(unit, capacity, table_offset, max_slots),
        ),
{
    assert(capacity * unit >= 0) by (nonlinear_arith)
        requires
            capacity >= 0,
            unit >= 0,
    ;
}

/// The table lies in the region past the header, and the elements past the
/// table.
pub open spec fn dense_fit(
    region: Seq<u64>,
    table_offset: int,
    max_slots: int,
    d: DenseGeometry,
) -> bool {
    &&& d.fits(region)
    &&& table_fits(region, table_offset, max_slots)
    &&& table_offset / 8 + 16 * max_slots <= d.base
    &&& region.len() <= usize::MAX / 8
}

/// A write to the buffer keeps the published cursor and the slots of the table.
proof fn lemma_gate_outside(
    before: Seq<u64>,
    after: Seq<u64>,
    table_offset: int,
    max_slots: int,
    d: DenseGeometry,
)
    requires
        dense_fit(before, table_offset, max_slots, d),
        after.len() == before.len(),
        forall|i: int| 0 <= i < d.base ==> #[trigger] after[i] == before[i],
    ensures
        gate_of(after, table_offset, max_slots) == gate_of(before, table_offset, max_slots),
{
    assert(gate_of(after, table_offset, max_slots).slots =~= gate_of(
        before,
        table_offset,
        max_slots,
    ).slots);
}

/// A store below the elements leaves them alone.
proof fn lemma_below(d: DenseGeometry, before: Seq<u64>, after: Seq<u64>)
    requires
        d.fits(before),
        after.len() == before.len(),
        forall|i: int| d.base <= i < before.len() ==> #[trigger] after[i] == before[i],
    ensures
        d.bytes(after) == d.bytes(before),
{
    assert(d.bytes(after) =~= d.bytes(before));
}

/// What publishing an element does to a region: its place in the buffer holds
/// it, the published cursor is one further, and nothing else changes.
pub open spec fn element_pushed(
    before: Seq<u64>,
    after: Seq<u64>,
    next: u64,
    d: DenseGeometry,
    element: Seq<u8>,
) -> bool {
    &&& d.bytes(after) == with_run(d.bytes(before), d.at(next as int), element)
    &&& word(after, OFF_WRITE_CURSOR as int) == next + 1
    &&& after.len() == before.len()
    &&& forall|i: int|
        0 <= i < before.len() && i != 16 && !(d.base <= i < d.base + d.words())
            ==> #[trigger] after[i] == before[i]
}

/// What trying to claim the next place of a region comes to.
pub open spec fn place_claimed(
    producer: Producer,
    after: Producer,
    region: Seq<u64>,
    side: GateShmProducer,
    d: DenseGeometry,
    r: Option<WriteSlot>,
) -> bool {
    &&& r is Some == side.gate(region).open_for(1, d.cap())
    &&& producer.core.asked(&after.core, side.gate(region), 1)
    &&& r matches Some(slot) ==> slot.claims_shm(&after, region, side, d)
}

/// What committing an element to a claimed place comes to.
pub open spec fn place_committed(
    producer: Producer,
    after: Producer,
    region: Seq<u64>,
    region_after: Seq<u64>,
    d: DenseGeometry,
    element: Seq<u8>,
) -> bool {
    &&& element_pushed(region, region_after, producer.core.next_seq, d, element)
    &&& after.core == (GateProducer {
        next_seq: (producer.core.next_seq + 1) as u64,
        ..producer.core
    })
}

/// What trying to push an element comes to.
pub open spec fn push_tried(
    producer: Producer,
    after: Producer,
    region: Seq<u64>,
    region_after: Seq<u64>,
    side: GateShmProducer,
    d: DenseGeometry,
    element: Seq<u8>,
    r: bool,
) -> bool {
    &&& r == side.gate(region).open_for(1, d.cap())
    &&& r ==> element_pushed(region, region_after, producer.core.next_seq, d, element)
    &&& r ==> producer.core.spent(&after.core, side.gate(region), 1)
    &&& !r ==> region_after == region
    &&& !r ==> producer.core.asked(&after.core, side.gate(region), 1)
}

impl Producer {
    /// The producer belongs to the region.
    pub open spec fn inv_shm(
        &self,
        region: Seq<u64>,
        side: GateShmProducer,
        d: DenseGeometry,
    ) -> bool {
        &&& dense_fit(region, side.table_offset as int, side.max_slots as int, d)
        &&& self.core.inv(side.gate(region))
        &&& self.core.mask == d.mask
    }

    /// Publish an element if the slowest consumer leaves room for it.
    pub fn try_push_shm(
        &mut self,
        region: &mut [u64],
        side: &GateShmProducer,
        d: &DenseGeometry,
        element: &[u8],
    ) -> (r: bool)
        requires
            old(self).inv_shm(old(region)@, *side, *d),
            element@.len() == d.unit,
            old(self).core.next_seq < MAX_CURSOR,
        ensures
            push_tried(
                *old(self),
                *final(self),
                old(region)@,
                final(region)@,
                *side,
                *d,
                element@,
                r,
            ),
            final(self).inv_shm(final(region)@, *side, *d),
    {
        match self.try_claim_shm(region, side, d) {
            None => false,
            Some(slot) => {
                slot.commit_shm(self, region, side, d, element);
                true
            },
        }
    }

    /// Claim the place of the next element if the slowest consumer leaves room
    /// for it.
    pub fn try_claim_shm(&mut self, region: &[u64], side: &GateShmProducer, d: &DenseGeometry) -> (r:
        Option<WriteSlot>)
        requires
            old(self).inv_shm(region@, *side, *d),
        ensures
            place_claimed(*old(self), *final(self), region@, *side, *d, r),
            final(self).inv_shm(region@, *side, *d),
    {
        if self.core.has_space_shm(region, side, 1) {
            Some(WriteSlot { seq: self.core.next_seq })
        } else {
            None
        }
    }
}

impl WriteSlot {
    /// The claim is on the producer's next place in a region, which is granted.
    pub open spec fn claims_shm(
        &self,
        producer: &Producer,
        region: Seq<u64>,
        side: GateShmProducer,
        d: DenseGeometry,
    ) -> bool {
        &&& self.seq == producer.core.next_seq
        &&& producer.inv_shm(region, side, d)
        &&& producer.granted()
    }

    /// Store an element in the claimed place of a region. It is not published
    /// yet.
    pub fn fill_shm(
        &self,
        producer: &Producer,
        region: &mut [u64],
        side: &GateShmProducer,
        d: &DenseGeometry,
        element: &[u8],
    )
        requires
            self.claims_shm(producer, old(region)@, *side, *d),
            element@.len() == d.unit,
        ensures
            d.bytes(final(region)@) == with_run(
                d.bytes(old(region)@),
                d.at(self.seq as int),
                element@,
            ),
            final(region)@.len() == old(region)@.len(),
            forall|i: int|
                0 <= i < old(region)@.len() && !(d.base <= i < d.base + d.words())
                    ==> #[trigger] final(region)@[i] == old(region)@[i],
            self.claims_shm(producer, final(region)@, *side, *d),
    {
        d.write(region, self.seq, element);
        proof {
            lemma_gate_outside(
                old(region)@,
                region@,
                side.table_offset as int,
                side.max_slots as int,
                *d,
            );
        }
    }

    /// Publish the claimed place of a region as it was filled.
    pub fn commit_init_shm(
        self,
        producer: &mut Producer,
        region: &mut [u64],
        side: &GateShmProducer,
        d: &DenseGeometry,
    )
        requires
            self.claims_shm(old(producer), old(region)@, *side, *d),
            old(producer).core.next_seq < MAX_CURSOR,
        ensures
            final(region)@ == old(region)@.update(16, (old(producer).core.next_seq + 1) as u64),
            d.bytes(final(region)@) == d.bytes(old(region)@),
            final(producer).core == (GateProducer {
                next_seq: (old(producer).core.next_seq + 1) as u64,
                ..old(producer).core
            }),
            final(producer).inv_shm(final(region)@, *side, *d),
    {
        producer.core.publish_shm(region, side, 1);
        proof {
            lemma_below(*d, old(region)@, region@);
        }
    }

    /// Store an element in the claimed place of a region and publish it.
    pub fn commit_shm(
        self,
        producer: &mut Producer,
        region: &mut [u64],
        side: &GateShmProducer,
        d: &DenseGeometry,
        element: &[u8],
    )
        requires
            self.claims_shm(old(producer), old(region)@, *side, *d),
            element@.len() == d.unit,
            old(producer).core.next_seq < MAX_CURSOR,
        ensures
            place_committed(
                *old(producer),
                *final(producer),
                old(region)@,
                final(region)@,
                *d,
                element@,
            ),
            final(producer).inv_shm(final(region)@, *side, *d),
    {
        self.fill_shm(producer, region, side, d, element);
        self.commit_init_shm(producer, region, side, d);
    }
}

/// What looking for an element of a region comes to: whether there is one, and
/// whether none will come.
pub open spec fn sought(
    consumer: Consumer,
    after: Consumer,
    region: Seq<u64>,
    d: DenseGeometry,
    found: Result<bool, Closed>,
) -> bool {
    let waiting = consumer.pending_shm(region, d).len() > 0;
    &&& after == consumer.looked_shm(word(region, OFF_WRITE_CURSOR as int))
    &&& match found {
        Ok(there) => there == waiting && (!there ==> word(region, OFF_CLOSED as int) == 0),
        Err(_) => !waiting && word(region, OFF_CLOSED as int) != 0,
    }
}

/// What stepping past an element of a region comes to: the consumer is one
/// message further, and its slot says so where progress was published and the
/// slot is still leased to it.
pub open spec fn stepped(
    consumer: Consumer,
    after: Consumer,
    region: Seq<u64>,
    region_after: Seq<u64>,
    side: GateShmConsumer,
    d: DenseGeometry,
) -> bool {
    &&& consumer.next(&after, consumer.core.write_cache)
    &&& region_after == (if after.core.published != consumer.core.published {
        side.with_cursor(region, after.core.published)
    } else {
        region
    })
    &&& after.pending_shm(region_after, d) == consumer.pending_shm(region, d).drop_first()
}

impl Consumer {
    /// The consumer reads this region. Its slot may have been retired, or
    /// leased to another handle.
    pub open spec fn placed_shm(
        &self,
        region: Seq<u64>,
        side: GateShmConsumer,
        d: DenseGeometry,
    ) -> bool {
        &&& dense_fit(region, side.table_offset as int, side.max_slots as int, d)
        &&& side.fits(region)
        &&& self.core.placed(side.gate(region))
        &&& self.core.mask == d.mask
    }

    /// The consumer belongs to the region, and its slot is leased to it.
    pub open spec fn inv_shm(
        &self,
        region: Seq<u64>,
        side: GateShmConsumer,
        d: DenseGeometry,
    ) -> bool {
        &&& self.placed_shm(region, side, d)
        &&& side.registered(self.core, region)
    }

    /// The elements that the consumer will be handed, oldest first.
    pub open spec fn pending_shm(&self, region: Seq<u64>, d: DenseGeometry) -> Seq<Seq<u8>> {
        Seq::new(
            (word(region, OFF_WRITE_CURSOR as int) - self.core.read_cursor) as nat,
            |i: int| d.element_of(region, self.core.read_cursor + i),
        )
    }

    /// The consumer after a look at the published cursor.
    pub open spec fn looked_shm(&self, tail: u64) -> Consumer {
        Consumer {
            core: GateConsumer {
                write_cache: if self.core.write_cache == self.core.read_cursor {
                    tail
                } else {
                    self.core.write_cache
                },
                ..self.core
            },
        }
    }

    /// The number of elements that the consumer will be handed.
    pub fn len_shm(&self, region: &[u64], side: &GateShmConsumer, d: &DenseGeometry) -> (r: usize)
        requires
            self.placed_shm(region@, *side, *d),
            word(region@, OFF_WRITE_CURSOR as int) - self.core.read_cursor <= usize::MAX,
        ensures
            r == self.pending_shm(region@, *d).len(),
    {
        read_u64(region, OFF_WRITE_CURSOR).wrapping_sub(self.core.read_cursor) as usize
    }

    /// Look for an element; `Closed` once the producer is gone and everything
    /// is consumed.
    fn seek_shm(&mut self, region: &[u64], side: &GateShmConsumer, d: &DenseGeometry) -> (r: Result<
        bool,
        Closed,
    >)
        requires
            old(self).placed_shm(region@, *side, *d),
        ensures
            sought(*old(self), *final(self), region@, *d, r),
            r == Ok::<bool, Closed>(true) ==> final(self).core.read_cursor
                < final(self).core.write_cache,
            final(self).placed_shm(region@, *side, *d),
            old(self).inv_shm(region@, *side, *d) ==> final(self).inv_shm(region@, *side, *d),
    {
        if self.core.has_item_shm(region, side) {
            return Ok(true);
        }
        if read_u64(region, OFF_CLOSED) != 0 {
            return Err(Closed);
        }
        Ok(false)
    }

    /// Step past the oldest element.
    fn step_shm(&mut self, region: &mut [u64], side: &GateShmConsumer, d: &DenseGeometry)
        requires
            old(self).placed_shm(old(region)@, *side, *d),
            old(self).core.read_cursor < old(self).core.write_cache,
        ensures
            stepped(*old(self), *final(self), old(region)@, final(region)@, *side, *d),
            final(self).placed_shm(final(region)@, *side, *d),
            old(self).inv_shm(old(region)@, *side, *d) ==> final(self).inv_shm(
                final(region)@,
                *side,
                *d,
            ),
    {
        let capacity: u64 = self.core.mask + 1;
        let was_full: bool = self.core.write_cache.wrapping_sub(self.core.read_cursor) > capacity
            - 1;
        let batch: u64 = publish_batch_elems(capacity);
        self.core.advance_shm(region, side, 1, was_full, batch);
        proof {
            lemma_below(*d, old(region)@, region@);
            assert(self.pending_shm(region@, *d) =~= old(self).pending_shm(
                old(region)@,
                *d,
            ).drop_first());
        }
    }

    /// Consume the oldest element of a region if there is one; `Closed` once
    /// the producer is gone and everything is consumed.
    pub fn try_pop_shm(
        &mut self,
        region: &mut [u64],
        side: &GateShmConsumer,
        d: &DenseGeometry,
    ) -> (r: Result<Option<Vec<u8>>, Closed>)
        requires
            old(self).placed_shm(old(region)@, *side, *d),
        ensures
            ({
                let tail = word(old(region)@, OFF_WRITE_CURSOR as int);
                let closed = word(old(region)@, OFF_CLOSED as int) != 0;
                let pending = old(self).pending_shm(old(region)@, *d);
                let looked = old(self).looked_shm(tail);
                match r {
                    Ok(Some(element)) => {
                        &&& pending.len() > 0
                        &&& element@ == pending[0]
                        &&& stepped(looked, *final(self), old(region)@, final(region)@, *side, *d)
                        &&& final(self).pending_shm(final(region)@, *d) == pending.drop_first()
                    },
                    Ok(None) => {
                        &&& !closed
                        &&& pending.len() == 0
                        &&& final(region)@ == old(region)@
                        &&& *final(self) == looked
                    },
                    Err(_) => {
                        &&& closed
                        &&& pending.len() == 0
                        &&& final(region)@ == old(region)@
                        &&& *final(self) == looked
                    },
                }
            }),
            final(self).placed_shm(final(region)@, *side, *d),
            old(self).inv_shm(old(region)@, *side, *d) ==> final(self).inv_shm(
                final(region)@,
                *side,
                *d,
            ),
    {
        if !self.seek_shm(region, side, d)? {
            return Ok(None);
        }
        let element = d.read(region, self.core.read_cursor);
        self.step_shm(region, side, d);
        Ok(Some(element))
    }

    /// Borrow the oldest element of a region if there is one; `Closed` once
    /// the producer is gone and everything is consumed.
    pub fn try_pop_ref_shm(
        &mut self,
        region: &[u64],
        side: &GateShmConsumer,
        d: &DenseGeometry,
    ) -> (r: Result<Option<PopRef>, Closed>)
        requires
            old(self).placed_shm(region@, *side, *d),
        ensures
            sought(
                *old(self),
                *final(self),
                region@,
                *d,
                match r {
                    Ok(borrow) => Ok(borrow is Some),
                    Err(e) => Err(e),
                },
            ),
            r matches Ok(Some(borrow)) ==> borrow.borrows_shm(final(self), region@, *side, *d),
            final(self).placed_shm(region@, *side, *d),
            old(self).inv_shm(region@, *side, *d) ==> final(self).inv_shm(region@, *side, *d),
    {
        if !self.seek_shm(region, side, d)? {
            return Ok(None);
        }
        Ok(Some(PopRef { seq: self.core.read_cursor }))
    }

    /// Consume a batch of a region: everything in it, at most the
    /// deferred-publish bound. Each element is handed to `f`, oldest first; the
    /// progress is published once, after the last. The number of elements.
    ///
    /// An element counts as consumed before `f` sees it, and where `f` unwinds
    /// the progress is published on the way out (see [`hand_over`]).
    pub fn drain_shm<H: Handler<[u8]>>(
        &mut self,
        region: &mut [u64],
        side: &GateShmConsumer,
        d: &DenseGeometry,
        f: H,
    ) -> (r: usize)
        requires
            old(self).placed_shm(old(region)@, *side, *d),
            forall|m: &[u8], i: int|
                0 <= i < old(self).pending_shm(old(region)@, *d).len() && m@ == (
                #[trigger] old(self).pending_shm(old(region)@, *d)[i]) ==> #[trigger] f.accepts(
                    m,
                ),
        ensures
            r == drained(old(self).pending_shm(old(region)@, *d).len() as int, d.cap()),
            exists|after: H| #[trigger]
                took_runs(f, old(self).pending_shm(old(region)@, *d).take(r as int), after)
                    && has_resolved(after),
            final(self).core == (GateConsumer {
                read_cursor: (old(self).core.read_cursor + r) as u64,
                published: if r == 0 {
                    old(self).core.published
                } else {
                    (old(self).core.read_cursor + r) as u64
                },
                write_cache: word(old(region)@, OFF_WRITE_CURSOR as int),
                ..old(self).core
            }),
            final(region)@ == (if r == 0 {
                old(region)@
            } else {
                side.with_cursor(old(region)@, final(self).core.published)
            }),
            final(self).pending_shm(final(region)@, *d) == old(self).pending_shm(
                old(region)@,
                *d,
            ).skip(r as int),
            final(self).placed_shm(final(region)@, *side, *d),
            old(self).inv_shm(old(region)@, *side, *d) ==> final(self).inv_shm(
                final(region)@,
                *side,
                *d,
            ),
    {
        let mut f = f;
        let ghost g = f;
        let end: u64 = self.core.refresh_shm(region, side);
        let available: u64 = end.wrapping_sub(self.core.read_cursor);
        let ghost looked = *self;
        let ghost start = self.core.read_cursor;
        let ghost pending = old(self).pending_shm(old(region)@, *d);
        if available == 0 {
            proof {
                assert(self.pending_shm(region@, *d) =~= pending.skip(0));
                assert(took_runs(g, pending.take(0), f));
            }
            return 0;
        }
        let batch: u64 = publish_batch_elems(self.core.mask + 1);
        let count: u64 = if available < batch {
            available
        } else {
            batch
        };
        let mut i: u64 = 0;
        while i < count
            invariant
                i <= count,
                count <= available,
                start + available == word(region@, OFF_WRITE_CURSOR as int),
                start == old(self).core.read_cursor,
                region@ == old(region)@,
                old(self).placed_shm(region@, *side, *d),
                looked.placed_shm(region@, *side, *d),
                old(self).inv_shm(region@, *side, *d) ==> looked.inv_shm(region@, *side, *d),
                pending == old(self).pending_shm(old(region)@, *d),
                looked.core == (GateConsumer {
                    write_cache: (start + available) as u64,
                    ..old(self).core
                }),
                self.core == (GateConsumer { read_cursor: (start + i) as u64, ..looked.core }),
                forall|m: &[u8], j: int|
                    0 <= j < pending.len() && m@ == (#[trigger] pending[j])
                        ==> #[trigger] f.accepts(m),
                took_runs(g, pending.take(i as int), f),
            decreases count - i,
        {
            let element = d.read(region, self.core.read_cursor);
            self.core.read_cursor = self.core.read_cursor.wrapping_add(1);
            let msg: &[u8] = element.as_slice();
            assert(msg@ == pending[i as int]);
            let place: Option<&mut u64> = side.place(region);
            let ghost mid = f;
            hand_over(&mut self.core, place, &mut f, msg);
            proof {
                assert(region@ =~= old(region)@);
                lemma_took_run(g, pending.take(i as int), mid, msg, f);
                assert(pending.take(i as int).push(msg@) =~= pending.take(i + 1));
            }
            i += 1;
        }
        assert(self.placed_shm(region@, *side, *d));
        assert(old(self).inv_shm(region@, *side, *d) ==> self.inv_shm(region@, *side, *d));
        self.core.flush_pending_shm(region, side);
        proof {
            lemma_below(*d, old(region)@, region@);
            assert(self.pending_shm(region@, *d) =~= pending.skip(count as int));
        }
        count as usize
    }
}

impl PopRef {
    /// The borrow is of the consumer's oldest element in a region.
    pub open spec fn borrows_shm(
        &self,
        consumer: &Consumer,
        region: Seq<u64>,
        side: GateShmConsumer,
        d: DenseGeometry,
    ) -> bool {
        &&& consumer.placed_shm(region, side, d)
        &&& self.seq == consumer.core.read_cursor
        &&& consumer.core.read_cursor < consumer.core.write_cache
    }

    /// The element.
    pub fn get_shm(
        &self,
        consumer: &Consumer,
        region: &[u64],
        side: &GateShmConsumer,
        d: &DenseGeometry,
    ) -> (r: Vec<u8>)
        requires
            self.borrows_shm(consumer, region@, *side, *d),
        ensures
            consumer.pending_shm(region@, *d).len() > 0,
            r@ == consumer.pending_shm(region@, *d)[0],
    {
        d.read(region, self.seq)
    }

    /// Step past the element.
    pub fn release_shm(
        self,
        consumer: &mut Consumer,
        region: &mut [u64],
        side: &GateShmConsumer,
        d: &DenseGeometry,
    )
        requires
            self.borrows_shm(old(consumer), old(region)@, *side, *d),
        ensures
            stepped(*old(consumer), *final(consumer), old(region)@, final(region)@, *side, *d),
            final(consumer).placed_shm(final(region)@, *side, *d),
            old(consumer).inv_shm(old(region)@, *side, *d) ==> final(consumer).inv_shm(
                final(region)@,
                *side,
                *d,
            ),
    {
        consumer.step_shm(region, side, d);
    }
}

/// A push reaches every consumer of a region: its element is added at the end
/// of what the consumer will be handed, and nothing that is pending is
/// touched.
pub proof fn a_push_reaches_every_consumer(
    producer: Producer,
    side: GateShmProducer,
    consumer: Consumer,
    slot: GateShmConsumer,
    d: DenseGeometry,
    before: Seq<u64>,
    after: Seq<u64>,
    element: Seq<u8>,
)
    requires
        producer.inv_shm(before, side, d),
        consumer.inv_shm(before, slot, d),
        slot.table_offset == side.table_offset,
        slot.max_slots == side.max_slots,
        side.gate(before).open_for(1, d.cap()),
        producer.core.next_seq < MAX_CURSOR,
        element.len() == d.unit,
        element_pushed(before, after, producer.core.next_seq, d, element),
    ensures
        consumer.inv_shm(after, slot, d),
        consumer.pending_shm(after, d) == consumer.pending_shm(before, d).push(element),
{
    let tail = producer.core.next_seq as int;
    let cap = d.cap();
    let k = consumer.core.slot.at();
    assert(holds_back(side.gate(before).slots[k]));
    assert(slot.gate(after).slots =~= slot.gate(before).slots);
    assert forall|i: int| 0 <= i < consumer.pending_shm(before, d).len() implies #[trigger]
        consumer.pending_shm(after, d)[i] == consumer.pending_shm(before, d)[i] by {
        let s: int = consumer.core.read_cursor + i;
        lemma_distinct_slots(s, tail, cap);
        d.lemma_replaced(before, after, tail, s, element);
    }
    d.lemma_replaced(before, after, tail, tail, element);
    assert(consumer.pending_shm(after, d) =~= consumer.pending_shm(before, d).push(element));
}

/// What a producer that died left in the place of its next element, half
/// written or not, is invisible: everything published is there to be taken.
pub proof fn a_torn_write_is_invisible(
    producer: Producer,
    side: GateShmProducer,
    consumer: Consumer,
    slot: GateShmConsumer,
    d: DenseGeometry,
    before: Seq<u64>,
    after: Seq<u64>,
    torn: Seq<u8>,
)
    requires
        producer.inv_shm(before, side, d),
        consumer.inv_shm(before, slot, d),
        slot.table_offset == side.table_offset,
        slot.max_slots == side.max_slots,
        side.gate(before).open_for(1, d.cap()),
        torn.len() == d.unit,
        d.bytes(after) == with_run(d.bytes(before), d.at(producer.core.next_seq as int), torn),
        after.len() == before.len(),
        forall|i: int| 0 <= i < d.base ==> #[trigger] after[i] == before[i],
    ensures
        producer.inv_shm(after, side, d),
        consumer.inv_shm(after, slot, d),
        consumer.pending_shm(after, d) == consumer.pending_shm(before, d),
{
    let tail = producer.core.next_seq as int;
    let k = consumer.core.slot.at();
    assert(holds_back(side.gate(before).slots[k]));
    lemma_gate_outside(before, after, side.table_offset as int, side.max_slots as int, d);
    assert forall|i: int| 0 <= i < consumer.pending_shm(before, d).len() implies #[trigger]
        consumer.pending_shm(after, d)[i] == consumer.pending_shm(before, d)[i] by {
        let s: int = consumer.core.read_cursor + i;
        lemma_distinct_slots(s, tail, d.cap());
        d.lemma_replaced(before, after, tail, s, torn);
    }
    assert(consumer.pending_shm(after, d) =~= consumer.pending_shm(before, d));
}

/// In a region, too, claiming a place and committing an element comes to what
/// pushing the element comes to, and a claim is refused exactly where a push
/// is.
pub proof fn claim_and_commit_is_push(
    producer: Producer,
    claimer: Producer,
    committer: Producer,
    before: Seq<u64>,
    after: Seq<u64>,
    side: GateShmProducer,
    d: DenseGeometry,
    slot: Option<WriteSlot>,
    element: Seq<u8>,
)
    requires
        producer.inv_shm(before, side, d),
        place_claimed(producer, claimer, before, side, d, slot),
        if slot is Some {
            place_committed(claimer, committer, before, after, d, element)
        } else {
            committer == claimer && after == before
        },
    ensures
        push_tried(producer, committer, before, after, side, d, element, slot is Some),
{
    assert(producer.core.asked(&claimer.core, side.gate(before), 1));
}

/// In a region, too, a consumer that takes one message of a whole ring of them,
/// and knows of all, leaves room: where everybody else does, the producer can
/// go on.
pub proof fn a_pop_from_a_full_ring_leaves_room(
    consumer: Consumer,
    after: Consumer,
    region: Seq<u64>,
    region_after: Seq<u64>,
    side: GateShmConsumer,
    d: DenseGeometry,
)
    requires
        consumer.inv_shm(region, side, d),
        consumer.pending_shm(region, d).len() == d.cap(),
        consumer.core.write_cache == region[16],
        stepped(consumer, after, region, region_after, side, d),
        forall|k: int|
            0 <= k < side.max_slots && k != side.claim.slot && (#[trigger] side.gate(
                region,
            ).slots[k]).active && side.gate(region).slots[k].cursor != u64::MAX ==> region[16]
                - side.gate(region).slots[k].cursor < d.cap(),
    ensures
        region_after[side.table_offset as int / 8 + 16 * side.claim.slot + 2]
            == consumer.core.read_cursor + 1,
        region_after[16] == region[16],
        forall|k: int|
            0 <= k < side.max_slots && (#[trigger] side.gate(region_after).slots[k]).active
                && side.gate(region_after).slots[k].cursor != u64::MAX ==> region_after[16]
                - side.gate(region_after).slots[k].cursor < d.cap(),
        side.gate(region_after).open_for(1, d.cap()),
{
    let w = side.table_offset as int / 8 + 16 * side.claim.slot + 2;
    assert(region_after == region.update(w, ((consumer.core.read_cursor + 1) as u64)));
    assert forall|k: int|
        0 <= k < side.max_slots && (#[trigger] side.gate(region_after).slots[k]).active
            && side.gate(region_after).slots[k].cursor != u64::MAX implies region_after[16]
        - side.gate(region_after).slots[k].cursor < d.cap() by {
        if k != side.claim.slot {
            assert(side.gate(region).slots[k] == side.gate(region_after).slots[k]);
        }
    }
}

/// The producer is told of a consumer's progress in a region in time, and not more
/// often than need be. Once nothing known is left to read, the slot says so;
/// what it does not say is less than an eighth of the ring and less than 64
/// messages; and a message that is taken from the middle of a batch is not told
/// at once.
pub proof fn a_pop_is_told_in_time(
    consumer: Consumer,
    after: Consumer,
    region: Seq<u64>,
    region_after: Seq<u64>,
    side: GateShmConsumer,
    d: DenseGeometry,
)
    requires
        consumer.inv_shm(region, side, d),
        consumer.core.read_cursor < consumer.core.write_cache,
        stepped(consumer, after, region, region_after, side, d),
    ensures
        ({
            let w = side.table_offset as int / 8 + 16 * side.claim.slot + 2;
            let told = region_after[w];
            let before = region[w];
            let read = consumer.core.read_cursor + 1;
            let cache = consumer.core.write_cache;
            let cap = d.cap();
            &&& after.core.read_cursor == read
            &&& after.core.write_cache == cache
            &&& told <= read
            &&& read == cache ==> told == read
            &&& read - told < 64
            &&& read - told == 0 || 8 * (read - told) < cap
            &&& read < cache && cache - consumer.core.read_cursor < cap && read - before < 64 && 8 * (
            read - before + 1) <= cap ==> told == before
        }),
{
    let w = side.table_offset as int / 8 + 16 * side.claim.slot + 2;
    a_batch_is_an_eighth(d.cap(), 64);
    assert(side.gate(region).slots[side.claim.slot as int].cursor == region[w]);
}

/// A push into a region is refused, and the region left alone, exactly where
/// some registered consumer has a whole ring to catch up on.
pub proof fn a_push_needs_room_and_nothing_else(
    producer: Producer,
    after: Producer,
    region: Seq<u64>,
    region_after: Seq<u64>,
    side: GateShmProducer,
    d: DenseGeometry,
    element: Seq<u8>,
    r: bool,
)
    requires
        producer.inv_shm(region, side, d),
        producer.core.next_seq < MAX_CURSOR,
        push_tried(producer, after, region, region_after, side, d, element, r),
    ensures
        ({
            let slots = side.gate(region).slots;
            r <==> forall|k: int|
                0 <= k < slots.len() && (#[trigger] slots[k]).active && slots[k].cursor != u64::MAX
                    ==> region[16] - slots[k].cursor < d.cap()
        }),
        !r ==> region_after == region,
        r ==> word(region_after, OFF_WRITE_CURSOR as int) == region[16] + 1,
{
    room_is_counted_from_the_slowest(side.gate(region), 1, d.cap());
}

} // verus!
