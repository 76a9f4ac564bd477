//! The cursor engine of the two-party rings: one producer, one consumer, and
//! two shared cursors that each side publishes for the other.
//!
//! Cursors count units (elements, or bytes) and wrap at the word size, so
//! every comparison is a wrapped difference. Each side keeps a private copy
//! of the other's cursor and re-reads the shared one only when the copy says
//! that it would have to wait. The consumer publishes its progress in
//! batches.

use crate::arith::{
    lag_usize, lemma_max_capacity, lemma_next_pow2, lemma_next_pow2_bounded, next_pow2,
    ring_capacity,
};
use vstd::arithmetic::power2::is_pow2;
use vstd::prelude::*;

verus! {

/// The deferred-publish bound of a ring: an eighth of the capacity, at least
/// one unit and at most `max_batch`.
pub open spec fn batch_of(capacity: int, max_batch: int) -> int {
    if capacity < 8 {
        1
    } else if capacity / 8 > max_batch {
        max_batch
    } else {
        capacity / 8
    }
}

/// The deferred-publish bound of a ring.
pub fn publish_batch(capacity: usize, max_batch: usize) -> (batch: usize)
    ensures
        batch == batch_of(capacity as int, max_batch as int),
{
    let batch: usize = capacity / 8;
    if batch == 0 {
        1
    } else if batch > max_batch {
        max_batch
    } else {
        batch
    }
}

/// The capacity of a ring that was asked for `min_capacity` units.
pub open spec fn rounded(min_capacity: int, floor: int) -> int {
    if next_pow2(min_capacity) >= floor {
        next_pow2(min_capacity)
    } else {
        floor
    }
}

/// The real capacity of a ring: `min_capacity` rounded up to the next power
/// of two, and at least `floor`.
pub fn round_capacity(min_capacity: usize, floor: usize) -> (capacity: usize)
    requires
        0 < min_capacity <= usize::MAX / 2 + 1,
    ensures
        capacity == rounded(min_capacity as int, floor as int),
{
    let mut p: usize = 1;
    proof {
        reveal(is_pow2);
        lemma_max_capacity();
        lemma_next_pow2(min_capacity as int);
        lemma_next_pow2_bounded(min_capacity as int, usize::MAX / 2 + 1);
    }
    while p < min_capacity
        invariant
            0 < min_capacity <= usize::MAX / 2 + 1,
            is_pow2(p as int),
            0 < p <= next_pow2(min_capacity as int) <= usize::MAX / 2 + 1,
            is_pow2(next_pow2(min_capacity as int)),
            next_pow2(min_capacity as int) >= min_capacity,
        decreases usize::MAX - p,
    {
        proof {
            lemma_double_within(p as int, next_pow2(min_capacity as int));
        }
        p = p * 2;
    }
    proof {
        lemma_next_pow2(min_capacity as int);
    }
    if p >= floor {
        p
    } else {
        floor
    }
}

proof fn lemma_double_within(p: int, q: int)
    requires
        is_pow2(p),
        is_pow2(q),
        p < q,
    ensures
        is_pow2(2 * p),
        2 * p <= q,
    decreases p,
{
    reveal(is_pow2);
    assert((2 * p) / 2 == p);
    if p > 1 {
        lemma_double_within(p / 2, q / 2);
    }
}

/// A rounded capacity is one that a ring can have.
pub proof fn lemma_rounded(min_capacity: int, floor: int)
    requires
        0 < min_capacity <= crate::arith::MAX_CAPACITY,
        ring_capacity(floor),
    ensures
        ring_capacity(rounded(min_capacity, floor)),
        rounded(min_capacity, floor) >= min_capacity,
        rounded(min_capacity, floor) >= floor,
{
    lemma_max_capacity();
    lemma_next_pow2(min_capacity);
    lemma_next_pow2_bounded(min_capacity, crate::arith::MAX_CAPACITY as int);
}

/// Would `needed` more units past `write` overrun a ring of `capacity` units
/// whose consumer has read up to `read`?
pub fn lacks_space(write: usize, needed: usize, read: usize, capacity: usize) -> (r: bool)
    ensures
        r == (lag_usize(write.wrapping_add(needed), read) > capacity),
{
    write.wrapping_add(needed).wrapping_sub(read) > capacity
}

/// Has everything below `write` been read?
pub fn no_item(write: usize, read: usize) -> (r: bool)
    ensures
        r == (write == read),
{
    write.wrapping_sub(read) == 0
}

/// The state that both sides see: the buffer and the two published cursors.
pub struct Shared<B> {
    pub buffer: Vec<B>,
    pub mask: usize,
    pub write_cursor: usize,
    pub read_cursor: usize,
}

impl<B> Shared<B> {
    /// Units in the ring.
    pub open spec fn capacity(&self) -> int {
        self.mask + 1
    }

    /// Units published and not yet given back.
    pub open spec fn occupied(&self) -> nat {
        lag_usize(self.write_cursor, self.read_cursor)
    }

    /// The occupancy never exceeds the capacity.
    pub open spec fn inv(&self) -> bool {
        &&& ring_capacity(self.capacity())
        &&& self.occupied() <= self.capacity()
    }
}

/// The producer's private state.
pub struct ProducerCore {
    pub mask: usize,
    pub write_cursor: usize,
    pub read_cursor_cache: usize,
}

/// The consumer's private state.
pub struct ConsumerCore {
    pub mask: usize,
    pub read_cursor: usize,
    pub published: usize,
    pub write_cursor_cache: usize,
}

/// A fresh ring of `capacity` units over `buffer`, with both of its sides.
pub fn channel<B>(capacity: usize, buffer: Vec<B>) -> (r: (Shared<B>, ProducerCore, ConsumerCore))
    requires
        ring_capacity(capacity as int),
    ensures
        r.0 == (Shared { buffer, mask: (capacity - 1) as usize, write_cursor: 0, read_cursor: 0 }),
        r.1 == (ProducerCore {
            mask: (capacity - 1) as usize,
            write_cursor: 0,
            read_cursor_cache: 0,
        }),
        r.2 == (ConsumerCore {
            mask: (capacity - 1) as usize,
            read_cursor: 0,
            published: 0,
            write_cursor_cache: 0,
        }),
        r.0.inv(),
        r.1.inv(&r.0),
        r.2.inv(&r.0),
{
    let mask: usize = capacity - 1;
    (
        Shared { buffer, mask, write_cursor: 0, read_cursor: 0 },
        ProducerCore { mask, write_cursor: 0, read_cursor_cache: 0 },
        ConsumerCore { mask, read_cursor: 0, published: 0, write_cursor_cache: 0 },
    )
}

impl ProducerCore {
    /// The producer's cursor is the published one, and its copy of the read
    /// cursor is a lower bound of the shared one.
    pub open spec fn inv<B>(&self, shared: &Shared<B>) -> bool {
        &&& self.mask == shared.mask
        &&& self.write_cursor == shared.write_cursor
        &&& shared.occupied() <= lag_usize(self.write_cursor, self.read_cursor_cache)
        &&& lag_usize(self.write_cursor, self.read_cursor_cache) <= shared.capacity()
    }

    /// Whether `needed` units are free. Re-reads the shared read cursor only
    /// where the private copy says no.
    pub fn has_space<B>(&mut self, shared: &Shared<B>, needed: usize) -> (r: bool)
        requires
            shared.inv(),
            old(self).inv(shared),
            needed <= shared.capacity(),
        ensures
            r == (shared.occupied() + needed <= shared.capacity()),
            *final(self) == (ProducerCore {
                read_cursor_cache: if lag_usize(old(self).write_cursor, old(self).read_cursor_cache)
                    + needed <= shared.capacity() {
                    old(self).read_cursor_cache
                } else {
                    shared.read_cursor
                },
                ..*old(self)
            }),
            final(self).inv(shared),
            r ==> lag_usize(final(self).write_cursor, final(self).read_cursor_cache) + needed
                <= shared.capacity(),
    {
        let capacity: usize = self.mask + 1;
        if lacks_space(self.write_cursor, needed, self.read_cursor_cache, capacity) {
            self.read_cursor_cache = shared.read_cursor;
            if lacks_space(self.write_cursor, needed, self.read_cursor_cache, capacity) {
                return false;
            }
        }
        true
    }

    /// Publish `amount` units that a successful [`has_space`](Self::has_space)
    /// granted.
    pub fn publish<B>(&mut self, shared: &mut Shared<B>, amount: usize)
        requires
            old(shared).inv(),
            old(self).inv(old(shared)),
            lag_usize(old(self).write_cursor, old(self).read_cursor_cache) + amount
                <= old(shared).capacity(),
        ensures
            *final(self) == (ProducerCore {
                write_cursor: old(self).write_cursor.wrapping_add(amount),
                ..*old(self)
            }),
            *final(shared) == (Shared {
                write_cursor: old(self).write_cursor.wrapping_add(amount),
                ..*old(shared)
            }),
            final(shared).occupied() == old(shared).occupied() + amount,
            final(shared).inv(),
            final(self).inv(final(shared)),
    {
        self.write_cursor = self.write_cursor.wrapping_add(amount);
        shared.write_cursor = self.write_cursor;
    }

    /// Units in the ring.
    pub fn capacity(&self) -> (r: usize)
        requires
            self.mask < usize::MAX,
        ensures
            r == self.mask + 1,
    {
        self.mask + 1
    }

    /// The buffer position of the next write.
    pub fn slot(&self) -> (r: usize)
        requires
            ring_capacity(self.mask + 1),
        ensures
            r == self.write_cursor as int % (self.mask + 1),
    {
        crate::arith::slot_index(self.write_cursor as u64, self.mask as u64)
    }
}

impl ConsumerCore {
    /// Units that may be read: published by the producer and not yet
    /// consumed.
    pub open spec fn unread<B>(&self, shared: &Shared<B>) -> nat {
        lag_usize(shared.write_cursor, self.read_cursor)
    }

    /// The published cursor is the shared one, consumption never passes the
    /// producer, and the copy of the write cursor lies between the two.
    pub open spec fn inv<B>(&self, shared: &Shared<B>) -> bool {
        &&& self.mask == shared.mask
        &&& self.published == shared.read_cursor
        &&& self.unread(shared) <= shared.occupied()
        &&& lag_usize(shared.write_cursor, self.write_cursor_cache) <= self.unread(shared)
    }

    /// Consumed units that the producer has not been told of.
    pub open spec fn deferred(&self) -> nat {
        lag_usize(self.read_cursor, self.published)
    }

    /// Whether a unit can be read. Re-reads the shared write cursor only
    /// where the private copy says no.
    pub fn has_item<B>(&mut self, shared: &Shared<B>) -> (r: bool)
        requires
            shared.inv(),
            old(self).inv(shared),
        ensures
            r == (old(self).unread(shared) != 0),
            *final(self) == (ConsumerCore {
                write_cursor_cache: if old(self).write_cursor_cache == old(self).read_cursor {
                    shared.write_cursor
                } else {
                    old(self).write_cursor_cache
                },
                ..*old(self)
            }),
            final(self).inv(shared),
    {
        if no_item(self.write_cursor_cache, self.read_cursor) {
            self.refresh(shared);
            if no_item(self.write_cursor_cache, self.read_cursor) {
                return false;
            }
        }
        true
    }

    /// Re-read the producer's published cursor.
    pub fn refresh<B>(&mut self, shared: &Shared<B>) -> (r: usize)
        ensures
            r == shared.write_cursor,
            *final(self) == (ConsumerCore {
                write_cursor_cache: shared.write_cursor,
                ..*old(self)
            }),
            old(self).inv(shared) ==> final(self).inv(shared),
    {
        self.write_cursor_cache = shared.write_cursor;
        self.write_cursor_cache
    }

    /// Whether consuming `amount` more units publishes the read cursor: the
    /// copy of the write cursor stood above the watermark, the known units
    /// are drained, or `batch` units are deferred.
    pub open spec fn publishes(&self, amount: usize, batch: usize, full_watermark: usize) -> bool {
        let read = self.read_cursor.wrapping_add(amount);
        ||| lag_usize(self.write_cursor_cache, self.read_cursor) > full_watermark
        ||| read == self.write_cursor_cache
        ||| lag_usize(read, self.published) >= batch
    }

    /// Consume `amount` units and publish the progress where it is due.
    pub fn advance<B>(
        &mut self,
        shared: &mut Shared<B>,
        amount: usize,
        batch: usize,
        full_watermark: usize,
    )
        requires
            old(shared).inv(),
            old(self).inv(old(shared)),
            amount <= lag_usize(old(self).write_cursor_cache, old(self).read_cursor),
        ensures
            final(self).read_cursor == old(self).read_cursor.wrapping_add(amount),
            final(self).mask == old(self).mask,
            final(self).write_cursor_cache == old(self).write_cursor_cache,
            final(self).published == (if old(self).publishes(amount, batch, full_watermark) {
                final(self).read_cursor
            } else {
                old(self).published
            }),
            *final(shared) == (Shared { read_cursor: final(self).published, ..*old(shared) }),
            final(self).unread(final(shared)) == old(self).unread(old(shared)) - amount,
            final(shared).inv(),
            final(self).inv(final(shared)),
            final(self).deferred() == 0 || final(self).deferred() < batch,
    {
        let over_watermark: bool = self.write_cursor_cache.wrapping_sub(self.read_cursor)
            > full_watermark;
        self.read_cursor = self.read_cursor.wrapping_add(amount);
        if over_watermark || self.read_cursor == self.write_cursor_cache
            || self.read_cursor.wrapping_sub(self.published) >= batch {
            self.flush(shared);
        }
    }

    /// Publish the read cursor.
    pub fn flush<B>(&mut self, shared: &mut Shared<B>)
        ensures
            *final(self) == (ConsumerCore { published: old(self).read_cursor, ..*old(self) }),
            *final(shared) == (Shared { read_cursor: old(self).read_cursor, ..*old(shared) }),
    {
        shared.read_cursor = self.read_cursor;
        self.published = self.read_cursor;
    }

    /// Publish the read cursor if it moved since the last time.
    pub fn flush_pending<B>(&mut self, shared: &mut Shared<B>)
        requires
            old(shared).inv(),
            old(self).inv(old(shared)),
        ensures
            *final(self) == (ConsumerCore { published: old(self).read_cursor, ..*old(self) }),
            *final(shared) == (Shared { read_cursor: old(self).read_cursor, ..*old(shared) }),
            final(shared).inv(),
            final(self).inv(final(shared)),
    {
        if self.read_cursor != self.published {
            self.flush(shared);
        }
    }

    /// Units that may be read.
    pub fn available<B>(&self, shared: &Shared<B>) -> (r: usize)
        ensures
            r == self.unread(shared),
    {
        shared.write_cursor.wrapping_sub(self.read_cursor)
    }

    /// Units in the ring.
    pub fn capacity(&self) -> (r: usize)
        requires
            self.mask < usize::MAX,
        ensures
            r == self.mask + 1,
    {
        self.mask + 1
    }

    /// The buffer position of the next read.
    pub fn slot(&self) -> (r: usize)
        requires
            ring_capacity(self.mask + 1),
        ensures
            r == self.read_cursor as int % (self.mask + 1),
    {
        crate::arith::slot_index(self.read_cursor as u64, self.mask as u64)
    }
}

/// Units published and not yet given back.
pub fn shared_len<B>(inner: &Shared<B>) -> (r: usize)
    ensures
        r == inner.occupied(),
{
    inner.write_cursor.wrapping_sub(inner.read_cursor)
}

/// Whether nothing is in the ring.
pub fn shared_is_empty<B>(inner: &Shared<B>) -> (r: bool)
    ensures
        r == (inner.occupied() == 0),
{
    shared_len(inner) == 0
}

/// Whether the ring has no room for one more unit.
pub fn shared_is_full<B>(inner: &Shared<B>) -> (r: bool)
    requires
        inner.inv(),
    ensures
        r == (inner.occupied() == inner.capacity()),
{
    inner.write_cursor.wrapping_sub(inner.read_cursor) > inner.mask
}

/// Publishing leaves the consumer's invariant standing and hands it exactly
/// the published units.
pub proof fn publish_reaches_the_consumer<B>(
    before: Shared<B>,
    after: Shared<B>,
    producer: ProducerCore,
    consumer: ConsumerCore,
    amount: usize,
)
    requires
        before.inv(),
        producer.inv(&before),
        consumer.inv(&before),
        lag_usize(producer.write_cursor, producer.read_cursor_cache) + amount
            <= before.capacity(),
        after == (Shared { write_cursor: producer.write_cursor.wrapping_add(amount), ..before }),
    ensures
        consumer.inv(&after),
        consumer.unread(&after) == consumer.unread(&before) + amount,
{
}

/// Publishing the read cursor leaves the producer's invariant standing.
pub proof fn flush_reaches_the_producer<B>(
    before: Shared<B>,
    after: Shared<B>,
    producer: ProducerCore,
    consumer: ConsumerCore,
)
    requires
        before.inv(),
        producer.inv(&before),
        consumer.inv(&before),
        after == (Shared { read_cursor: consumer.read_cursor, ..before }),
    ensures
        after.inv(),
        producer.inv(&after),
        after.occupied() == consumer.unread(&before),
{
}

/// The deferred-publish bound is at least one unit, at most the limit, and an
/// eighth of the capacity where the limit and the one unit allow it: there is
/// no larger one that eight of fit into the ring.
pub proof fn a_batch_is_an_eighth(capacity: int, max_batch: int)
    requires
        1 <= capacity,
        1 <= max_batch,
    ensures
        1 <= batch_of(capacity, max_batch) <= max_batch,
        batch_of(capacity, max_batch) == 1 || 8 * batch_of(capacity, max_batch) <= capacity,
        batch_of(capacity, max_batch) == max_batch || 8 * (batch_of(capacity, max_batch) + 1)
            > capacity,
{
}

/// A ring that is asked for `min_capacity` units has the least power of two of
/// them that is enough and no less than the floor.
pub proof fn a_capacity_is_the_least_that_will_do(min_capacity: int, floor: int, other: int)
    requires
        0 < min_capacity <= crate::arith::MAX_CAPACITY,
        ring_capacity(floor),
        is_pow2(other),
        other >= min_capacity,
        other >= floor,
    ensures
        is_pow2(rounded(min_capacity, floor)),
        min_capacity <= rounded(min_capacity, floor) <= other,
        floor <= rounded(min_capacity, floor),
{
    lemma_rounded(min_capacity, floor);
    lemma_next_pow2(min_capacity);
}

/// The producer of a two-party ring is told of the consumer's progress in time,
/// and not more often than need be: once nothing known is left, once the ring was
/// seen filled above the watermark, and once a batch is due, the shared cursor is
/// the consumer's; else it stays.
pub proof fn progress_is_told_in_time<B>(
    consumer: ConsumerCore,
    shared: Shared<B>,
    after: ConsumerCore,
    shared_after: Shared<B>,
    amount: usize,
    batch: usize,
    full_watermark: usize,
)
    requires
        shared.inv(),
        consumer.inv(&shared),
        amount <= lag_usize(consumer.write_cursor_cache, consumer.read_cursor),
        after.read_cursor == consumer.read_cursor.wrapping_add(amount),
        after.published == (if consumer.publishes(amount, batch, full_watermark) {
            after.read_cursor
        } else {
            consumer.published
        }),
        shared_after == (Shared { read_cursor: after.published, ..shared }),
    ensures
        ({
            let seen = lag_usize(consumer.write_cursor_cache, consumer.read_cursor);
            let due = lag_usize(after.read_cursor, shared.read_cursor);
            let told = shared_after.read_cursor;
            &&& seen == amount ==> told == after.read_cursor
            &&& seen > full_watermark ==> told == after.read_cursor
            &&& due >= batch ==> told == after.read_cursor
            &&& amount < seen <= full_watermark && due < batch ==> told == shared.read_cursor
        }),
{
}

} // verus!
