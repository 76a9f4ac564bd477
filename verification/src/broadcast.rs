//! A lossy ring: the producer never waits and knows of no consumer; a
//! consumer that falls more than a lap behind is told how many messages it
//! missed and continues near the head.
//!
//! [`RingBuffer`] is the state that all handles share; every operation takes
//! it beside the handle.

use crate::arith::{lemma_eighths, ring_capacity, MAX_CAPACITY, MAX_CURSOR};
use crate::cursor::{lemma_rounded, round_capacity, rounded};
use crate::seqlock::{
    a_lap_overwrites, a_lapped_reader_catches_up, a_message_is_kept_or_gone, filled, fresh_slots,
    holds, laid_out, message, with_message, write_slot, Slot, SlotRead, SlotReader,
};
use crate::text::{digits, with_number};
use crate::wait::YieldWait;
use vstd::prelude::*;

verus! {

/// Plain values: every byte of them is initialised, so that they can be
/// copied while they are being overwritten.
pub trait NoUninit: Copy {

}

impl NoUninit for u8 {

}

impl NoUninit for u16 {

}

impl NoUninit for u32 {

}

impl NoUninit for u64 {

}

impl NoUninit for u128 {

}

impl NoUninit for usize {

}

impl NoUninit for i8 {

}

impl NoUninit for i16 {

}

impl NoUninit for i32 {

}

impl NoUninit for i64 {

}

impl NoUninit for i128 {

}

impl NoUninit for isize {

}

impl<T: NoUninit, const N: usize> NoUninit for [T; N] {

}

/// Why a pop has no message.
#[derive(Clone, Copy, Debug, PartialEq, Eq, Structural)]
pub enum PopError {
    /// The consumer was lapped: `missed` messages were overwritten unread.
    Lagged { missed: u64 },
    /// The producer is gone and everything it published has been consumed.
    Closed,
}

impl PopError {
    /// The error in words.
    pub fn message(&self) -> (r: String)
        ensures
            r@ == (match self {
                PopError::Lagged { missed } => "consumer lagged: "@ + digits(*missed as nat)
                    + " messages overwritten unread"@,
                PopError::Closed =>
                    "ring closed: producer dropped and all published messages consumed"@,
            }),
    {
        match self {
            PopError::Lagged { missed } => with_number(
                "consumer lagged: ",
                *missed,
                " messages overwritten unread",
            ),
            PopError::Closed =>
                "ring closed: producer dropped and all published messages consumed".to_owned(),
        }
    }
}

/// The reposition slack of a ring: an eighth of the capacity, at least one
/// slot; none where the ring has a single slot.
pub open spec fn slack_of(capacity: int) -> int {
    if capacity == 1 {
        0
    } else if capacity < 8 {
        1
    } else {
        capacity / 8
    }
}

/// The reposition slack of a ring.
pub fn default_slack(capacity: u64) -> (r: u64)
    ensures
        r == slack_of(capacity as int),
{
    if capacity == 1 {
        0
    } else {
        let slack: u64 = capacity / 8;
        if slack == 0 {
            1
        } else {
            slack
        }
    }
}

/// The most pushes that one publication of the tail may cover.
pub open spec fn max_tail_batch(capacity: int) -> int {
    if capacity < 8 {
        1
    } else {
        capacity / 8
    }
}

/// The ring: its slots, and what the producer publishes.
pub struct RingBuffer<T> {
    pub slots: Vec<Slot<T>>,
    pub slack: u64,
    /// Messages published so far.
    pub tail: u64,
    /// The producer is gone.
    pub closed: bool,
}

impl<T: NoUninit> RingBuffer<T> {
    /// Slots in the ring.
    pub open spec fn cap(&self) -> int {
        self.slots@.len() as int
    }

    /// Published slots have payloads.
    pub open spec fn inv(&self) -> bool {
        &&& filled(self.slots@)
        &&& self.slack < self.cap()
        &&& self.tail <= MAX_CURSOR
    }

    /// Whether message `s` is still in its slot.
    pub open spec fn holds(&self, s: int) -> bool {
        holds(self.slots@, s)
    }

    /// The message at sequence `s`.
    pub open spec fn message(&self, s: int) -> T {
        message(self.slots@, s)
    }

    /// A fresh ring, its producer and one consumer, with the default slack.
    pub fn new(min_capacity: usize) -> (r: (Self, Producer, Consumer))
        requires
            0 < min_capacity <= MAX_CAPACITY,
            vstd::layout::size_of::<T>() != 0,
        ensures
            r.0.cap() == rounded(min_capacity as int, 1),
            r.0.slack == slack_of(r.0.cap()),
            fresh(r.0, r.1, r.2.reader),
    {
        Self::with_wait_strategies(min_capacity)
    }

    /// A fresh ring whose consumer waits by the strategy `C`.
    pub fn with_wait_strategies<C: Default>(min_capacity: usize) -> (r: (
        Self,
        Producer,
        Consumer<C>,
    ))
        requires
            0 < min_capacity <= MAX_CAPACITY,
            vstd::layout::size_of::<T>() != 0,
        ensures
            r.0.cap() == rounded(min_capacity as int, 1),
            r.0.slack == slack_of(r.0.cap()),
            fresh(r.0, r.1, r.2.reader),
    {
        proof {
            reveal(vstd::arithmetic::power2::is_pow2);
            lemma_rounded(min_capacity as int, 1);
        }
        let capacity: usize = round_capacity(min_capacity, 1);
        Self::build(capacity, default_slack(capacity as u64) as usize)
    }

    /// A fresh ring with an explicit slack: how many messages of headroom a
    /// lapped consumer keeps from the oldest message.
    pub fn with_slack<C: Default>(min_capacity: usize, slack: usize) -> (r: (
        Self,
        Producer,
        Consumer<C>,
    ))
        requires
            0 < min_capacity <= MAX_CAPACITY,
            slack < rounded(min_capacity as int, 1),
            vstd::layout::size_of::<T>() != 0,
        ensures
            r.0.cap() == rounded(min_capacity as int, 1),
            r.0.slack == slack,
            fresh(r.0, r.1, r.2.reader),
    {
        proof {
            reveal(vstd::arithmetic::power2::is_pow2);
            lemma_rounded(min_capacity as int, 1);
        }
        let capacity: usize = round_capacity(min_capacity, 1);
        Self::build(capacity, slack)
    }

    fn build<C: Default>(capacity: usize, slack: usize) -> (r: (Self, Producer, Consumer<C>))
        requires
            ring_capacity(capacity as int),
            slack < capacity,
        ensures
            r.0.cap() == capacity,
            r.0.slack == slack,
            fresh(r.0, r.1, r.2.reader),
    {
        let slots: Vec<Slot<T>> = fresh_slots(capacity);
        let ring = RingBuffer { slots, slack: slack as u64, tail: 0, closed: false };
        let consumer = subscribe_from(&ring);
        let producer = Producer {
            mask: (capacity - 1) as u64,
            next_seq: 0,
            tail_batch: 1,
            unpublished: 0,
        };
        (ring, producer, consumer)
    }
}

/// A ring in which nothing was pushed, its producer and a consumer.
pub open spec fn fresh<T: NoUninit>(
    ring: RingBuffer<T>,
    producer: Producer,
    reader: SlotReader,
) -> bool {
    &&& ring.inv()
    &&& ring.tail == 0
    &&& !ring.closed
    &&& producer.inv(&ring)
    &&& producer.next_seq == 0
    &&& producer.tail_batch == 1
    &&& subscribed(&ring, reader)
}

/// A reader that sees what is published from now on.
pub open spec fn subscribed<T: NoUninit>(ring: &RingBuffer<T>, reader: SlotReader) -> bool {
    reader == SlotReader {
        mask: (ring.cap() - 1) as u64,
        slack: ring.slack,
        pos: ring.tail,
        tail_cache: ring.tail,
    }
}

fn subscribe_from<T: NoUninit, C: Default>(ring: &RingBuffer<T>) -> (r: Consumer<C>)
    requires
        ring.inv(),
    ensures
        subscribed(ring, r.reader),
        r.inv(ring),
{
    let mask: u64 = ring.slots.len() as u64 - 1;
    Consumer { reader: SlotReader::join(mask, ring.slack, ring.tail), wait: C::default() }
}

/// The batch that a request for `batch` leads to: at least one, at most an
/// eighth of the capacity.
pub(crate) fn tail_batch_in_force(mask: u64, batch: usize) -> (r: u64)
    requires
        ring_capacity(mask + 1),
    ensures
        r == clamped(batch as int, 1, max_tail_batch(mask + 1)),
{
    let eighth: u64 = (mask + 1) / 8;
    let max: u64 = if eighth > 1 {
        eighth
    } else {
        1
    };
    if batch < 1 {
        1
    } else if batch as u64 > max {
        max
    } else {
        batch as u64
    }
}

/// The producing half.
pub struct Producer {
    pub mask: u64,
    pub next_seq: u64,
    /// Pushes per publication of the tail.
    pub tail_batch: u64,
    /// Pushes since the last publication.
    pub unpublished: u64,
}

impl Producer {
    /// The producer belongs to the ring: the slots are laid out as its pushes
    /// left them, and the tail trails by less than a batch.
    pub open spec fn inv<T: NoUninit>(&self, ring: &RingBuffer<T>) -> bool {
        &&& ring.inv()
        &&& self.mask + 1 == ring.cap()
        &&& laid_out(ring.slots@, self.next_seq as int)
        &&& self.next_seq <= MAX_CURSOR
        &&& self.next_seq == ring.tail + self.unpublished
        &&& self.unpublished < self.tail_batch
        &&& 1 <= self.tail_batch <= max_tail_batch(ring.cap())
    }

    /// Publish `value`. Never waits; the message of a lap ago is overwritten.
    pub fn push<T: NoUninit>(&mut self, ring: &mut RingBuffer<T>, value: T)
        requires
            old(self).inv(old(ring)),
            old(self).next_seq < MAX_CURSOR,
        ensures
            pushed(*old(self), *old(ring), *final(self), *final(ring), value),
            final(self).inv(final(ring)),
    {
        let s: u64 = self.next_seq;
        write_slot(&mut ring.slots, self.mask, s, value);
        self.next_seq = s + 1;
        self.unpublished = self.unpublished + 1;
        if self.unpublished >= self.tail_batch {
            self.unpublished = 0;
            ring.tail = self.next_seq;
        }
    }

    /// Publish the tail if a batch left it behind.
    pub fn flush<T: NoUninit>(&mut self, ring: &mut RingBuffer<T>)
        requires
            old(self).inv(old(ring)),
        ensures
            *final(self) == (Producer { unpublished: 0, ..*old(self) }),
            *final(ring) == (RingBuffer { tail: old(self).next_seq, ..*old(ring) }),
            final(self).inv(final(ring)),
    {
        if self.unpublished > 0 {
            self.unpublished = 0;
            ring.tail = self.next_seq;
        }
    }

    /// Publish the tail only with every `batch`-th push. The batch is kept
    /// between one and an eighth of the capacity; the value in force is
    /// returned. A debt that the new batch does not allow is paid at once.
    pub fn set_tail_batch<T: NoUninit>(
        &mut self,
        ring: &mut RingBuffer<T>,
        batch: usize,
    ) -> (r: usize)
        requires
            old(self).inv(old(ring)),
        ensures
            r == clamped(batch as int, 1, max_tail_batch(old(ring).cap())),
            final(self).tail_batch == r,
            final(self).mask == old(self).mask,
            final(self).next_seq == old(self).next_seq,
            final(self).unpublished == (if old(self).unpublished >= r {
                0
            } else {
                old(self).unpublished as int
            }),
            *final(ring) == (RingBuffer {
                tail: if old(self).unpublished >= r {
                    old(self).next_seq
                } else {
                    old(ring).tail
                },
                ..*old(ring)
            }),
            final(self).inv(final(ring)),
    {
        let batch: u64 = tail_batch_in_force(self.mask, batch);
        self.tail_batch = batch;
        if self.unpublished >= batch {
            self.unpublished = 0;
            ring.tail = self.next_seq;
        }
        batch as usize
    }

    /// A consumer that sees what is published from now on.
    pub fn subscribe<T: NoUninit, C: Default>(&self, ring: &RingBuffer<T>) -> (r: Consumer<C>)
        requires
            self.inv(ring),
        ensures
            subscribed(ring, r.reader),
            r.inv(ring),
    {
        subscribe_from(ring)
    }

    /// Messages pushed so far.
    pub fn tail(&self) -> (r: u64)
        ensures
            r == self.next_seq,
    {
        self.next_seq
    }

    /// Slots in the ring.
    pub fn capacity(&self) -> (r: usize)
        requires
            ring_capacity(self.mask + 1),
        ensures
            r == self.mask + 1,
    {
        (self.mask + 1) as usize
    }

    /// Give the producing half up: consumers see everything that was pushed,
    /// and then [`PopError::Closed`].
    pub fn close<T: NoUninit>(self, ring: &mut RingBuffer<T>)
        requires
            self.inv(old(ring)),
        ensures
            *final(ring) == (RingBuffer { tail: self.next_seq, closed: true, ..*old(ring) }),
            final(ring).inv(),
    {
        if self.unpublished > 0 {
            ring.tail = self.next_seq;
        }
        ring.closed = true;
    }
}

/// A value kept within bounds.
pub open spec fn clamped(x: int, low: int, high: int) -> int {
    if x < low {
        low
    } else if x > high {
        high
    } else {
        x
    }
}

/// The effect of a push.
pub open spec fn pushed<T: NoUninit>(
    before: Producer,
    ring_before: RingBuffer<T>,
    after: Producer,
    ring_after: RingBuffer<T>,
    value: T,
) -> bool {
    let publishes = before.unpublished + 1 >= before.tail_batch;
    &&& ring_after.slots@ == with_message(ring_before.slots@, before.next_seq as int, value)
    &&& ring_after.slack == ring_before.slack
    &&& ring_after.closed == ring_before.closed
    &&& ring_after.tail == (if publishes {
        before.next_seq + 1
    } else {
        ring_before.tail as int
    })
    &&& after == Producer {
        next_seq: (before.next_seq + 1) as u64,
        unpublished: if publishes {
            0
        } else {
            (before.unpublished + 1) as u64
        },
        ..before
    }
}

/// A consuming half.
pub struct Consumer<C = YieldWait> {
    pub reader: SlotReader,
    pub wait: C,
}

impl<C> Consumer<C> {
    /// The consumer belongs to the ring.
    pub open spec fn inv<T: NoUninit>(&self, ring: &RingBuffer<T>) -> bool {
        &&& ring.inv()
        &&& self.reader.inv(ring.tail)
        &&& self.reader.cap() == ring.cap()
        &&& self.reader.slack == ring.slack
    }

    /// The condition that `pop` waits for.
    pub open spec fn is_ready<T: NoUninit>(&self, ring: &RingBuffer<T>) -> bool {
        self.reader.pos < ring.tail || ring.closed
    }

    /// Whether `pop` can be answered.
    pub fn ready<T: NoUninit>(&self, ring: &RingBuffer<T>) -> (r: bool)
        ensures
            r == self.is_ready(ring),
    {
        ring.tail > self.reader.pos || ring.closed
    }

    /// The next message. Waits for [`ready`](Self::ready).
    pub fn pop<T: NoUninit>(&mut self, ring: &RingBuffer<T>) -> (r: Result<T, PopError>)
        requires
            old(self).inv(ring),
            old(self).is_ready(ring),
        ensures
            popped(*ring, old(self).reader, final(self).reader, r),
            final(self).wait == old(self).wait,
            final(self).inv(ring),
    {
        if self.reader.has_item(ring.tail) {
            return self.read_slot(ring);
        }
        if self.reader.drained(ring.tail, ring.closed) {
            return Err(PopError::Closed);
        }
        self.read_slot(ring)
    }

    /// The next message if there is one.
    pub fn try_pop<T: NoUninit>(&mut self, ring: &RingBuffer<T>) -> (r: Result<Option<T>, PopError>)
        requires
            old(self).inv(ring),
        ensures
            match r {
                Ok(Some(v)) => read(*ring, old(self).reader, final(self).reader, v),
                Ok(None) => !ring.closed && idle(*ring, old(self).reader, final(self).reader),
                Err(PopError::Lagged { missed }) => lapped(
                    *ring,
                    old(self).reader,
                    final(self).reader,
                    missed,
                ),
                Err(PopError::Closed) => ring.closed && idle(
                    *ring,
                    old(self).reader,
                    final(self).reader,
                ),
            },
            final(self).wait == old(self).wait,
            final(self).inv(ring),
    {
        if self.reader.has_item(ring.tail) {
            return match self.read_slot(ring) {
                Ok(v) => Ok(Some(v)),
                Err(e) => Err(e),
            };
        }
        if self.reader.drained(ring.tail, ring.closed) {
            return Err(PopError::Closed);
        }
        if self.reader.available() {
            return match self.read_slot(ring) {
                Ok(v) => Ok(Some(v)),
                Err(e) => Err(e),
            };
        }
        Ok(None)
    }

    fn read_slot<T: NoUninit>(&mut self, ring: &RingBuffer<T>) -> (r: Result<T, PopError>)
        requires
            old(self).inv(ring),
            old(self).reader.pos < ring.tail,
            old(self).reader.tail_cache > old(self).reader.pos,
        ensures
            match r {
                Ok(v) => read(*ring, old(self).reader, final(self).reader, v),
                Err(PopError::Lagged { missed }) => lapped(
                    *ring,
                    old(self).reader,
                    final(self).reader,
                    missed,
                ),
                Err(PopError::Closed) => false,
            },
            final(self).wait == old(self).wait,
            final(self).inv(ring),
    {
        match self.reader.read_slot(&ring.slots, ring.tail) {
            SlotRead::Message(v) => Ok(v),
            SlotRead::Lapped { missed } => Err(PopError::Lagged { missed }),
        }
    }

    /// Skip everything published so far; the number of messages skipped.
    pub fn skip_to_latest<T: NoUninit>(&mut self, ring: &RingBuffer<T>) -> (skipped: u64)
        requires
            old(self).inv(ring),
        ensures
            old(self).reader.skips(ring.tail, &final(self).reader, skipped),
            skipped == ring.tail - old(self).reader.pos,
            final(self).reader == (SlotReader {
                pos: ring.tail,
                tail_cache: ring.tail,
                ..old(self).reader
            }),
            final(self).wait == old(self).wait,
            final(self).inv(ring),
    {
        self.reader.skip_to_latest(ring.tail)
    }

    /// How many published messages the consumer has not seen.
    pub fn lag<T: NoUninit>(&self, ring: &RingBuffer<T>) -> (r: u64)
        requires
            self.inv(ring),
        ensures
            r == ring.tail - self.reader.pos,
    {
        self.reader.lag(ring.tail)
    }

    /// Another consumer, which sees what is published from now on.
    pub fn subscribe<T: NoUninit>(&self, ring: &RingBuffer<T>) -> (r: Consumer<C>) where C: Default
        requires
            self.inv(ring),
        ensures
            subscribed(ring, r.reader),
            r.inv(ring),
    {
        subscribe_from(ring)
    }

    /// Slots in the ring.
    pub fn capacity(&self) -> (r: usize)
        requires
            ring_capacity(self.reader.cap()),
        ensures
            r == self.reader.cap(),
    {
        (self.reader.mask + 1) as usize
    }
}

/// The reader was handed the message at its position and is one further.
pub open spec fn read<T: NoUninit>(
    ring: RingBuffer<T>,
    before: SlotReader,
    after: SlotReader,
    value: T,
) -> bool {
    &&& before.pos < ring.tail
    &&& ring.holds(before.pos as int)
    &&& value == ring.message(before.pos as int)
    &&& after == SlotReader {
        pos: (before.pos + 1) as u64,
        tail_cache: before.looked_up(ring.tail),
        ..before
    }
}

/// The message at the reader's position was overwritten; the reader skipped
/// exactly the reported number of messages.
pub open spec fn lapped<T: NoUninit>(
    ring: RingBuffer<T>,
    before: SlotReader,
    after: SlotReader,
    missed: u64,
) -> bool {
    &&& before.pos < ring.tail
    &&& !ring.holds(before.pos as int)
    &&& after == SlotReader { pos: before.resumed(ring.tail), tail_cache: ring.tail, ..before }
    &&& before.pos + missed == after.pos
}

/// Nothing was published past the reader.
pub open spec fn idle<T: NoUninit>(
    ring: RingBuffer<T>,
    before: SlotReader,
    after: SlotReader,
) -> bool {
    &&& before.pos == ring.tail
    &&& after == SlotReader { tail_cache: ring.tail, ..before }
}

/// What a consumer's wait for a message comes to.
pub open spec fn popped<T: NoUninit>(
    ring: RingBuffer<T>,
    before: SlotReader,
    after: SlotReader,
    r: Result<T, PopError>,
) -> bool {
    match r {
        Ok(v) => read(ring, before, after, v),
        Err(PopError::Lagged { missed }) => lapped(ring, before, after, missed),
        Err(PopError::Closed) => ring.closed && idle(ring, before, after),
    }
}

/// A run of pushes: each starts where the one before it ended.
pub open spec fn pushes<T: NoUninit>(
    producers: Seq<Producer>,
    rings: Seq<RingBuffer<T>>,
    values: Seq<T>,
) -> bool {
    &&& producers.len() == values.len() + 1
    &&& rings.len() == values.len() + 1
    &&& forall|i: int|
        0 <= i < values.len() ==> pushed(
            producers[i],
            rings[i],
            producers[i + 1],
            rings[i + 1],
            #[trigger] values[i],
        )
}

/// With a batch of `b`, `n` pushes to a ring whose tail is up to date publish
/// all but the last `n % b` of them; a flush, or the producer's end, publishes
/// those too. A consumer that was up to date lags by what is published.
pub proof fn a_batch_hides_less_than_a_batch<T: NoUninit>(
    producers: Seq<Producer>,
    rings: Seq<RingBuffer<T>>,
    values: Seq<T>,
    reader: SlotReader,
    flushed: RingBuffer<T>,
)
    requires
        pushes(producers, rings, values),
        producers[0].inv(&rings[0]),
        producers[0].unpublished == 0,
        producers[0].next_seq + values.len() <= MAX_CURSOR,
        reader.pos == rings[0].tail,
        flushed == (RingBuffer { tail: producers.last().next_seq, ..rings.last() }),
    ensures
        ({
            let n = values.len() as int;
            let b = producers[0].tail_batch as int;
            let last = producers.last();
            let ring = rings.last();
            &&& last.inv(&ring)
            &&& last.tail_batch == b
            &&& last.next_seq == rings[0].tail + n
            &&& ring.tail == rings[0].tail + (n - n % b)
            &&& last.next_seq - ring.tail == n % b < b
            &&& ring.tail - reader.pos == n - n % b
            &&& flushed.tail - reader.pos == n
        }),
{
    lemma_pushes(producers, rings, values, values.len() as int);
}

proof fn lemma_pushes<T: NoUninit>(
    producers: Seq<Producer>,
    rings: Seq<RingBuffer<T>>,
    values: Seq<T>,
    i: int,
)
    requires
        pushes(producers, rings, values),
        producers[0].inv(&rings[0]),
        producers[0].unpublished == 0,
        producers[0].next_seq + values.len() <= MAX_CURSOR,
        0 <= i <= values.len(),
    ensures
        producers[i].inv(&rings[i]),
        producers[i].tail_batch == producers[0].tail_batch,
        producers[i].next_seq == producers[0].next_seq + i,
        producers[i].unpublished == i % producers[0].tail_batch as int,
        rings[i].cap() == rings[0].cap(),
        rings[i].slack == rings[0].slack,
        rings[i].closed == rings[0].closed,
        values.len() <= rings[0].cap() ==> forall|k: int|
            0 <= k < i ==> rings[i].holds(producers[0].next_seq + k) && rings[i].message(
                producers[0].next_seq + k,
            ) == #[trigger] values[k],
    decreases i,
{
    let b = producers[0].tail_batch as int;
    if i > 0 {
        lemma_pushes(producers, rings, values, i - 1);
        let before = producers[i - 1];
        let s = before.next_seq as int;
        let cap = rings[0].cap();
        assert(pushed(before, rings[i - 1], producers[i], rings[i], values[i - 1]));
        crate::seqlock::lemma_written(rings[i - 1].slots@, s, values[i - 1]);
        if i % b == 0 {
            assert((i - 1) % b == b - 1) by (nonlinear_arith)
                requires
                    i % b == 0,
                    b > 0,
            ;
        } else {
            assert(i % b == (i - 1) % b + 1) by (nonlinear_arith)
                requires
                    i % b != 0,
                    b > 0,
            ;
        }
        if values.len() <= cap {
            assert forall|k: int| 0 <= k < i implies rings[i].holds(producers[0].next_seq + k)
                && rings[i].message(producers[0].next_seq + k) == #[trigger] values[k] by {
                let t: int = producers[0].next_seq + k;
                vstd::arithmetic::div_mod::lemma_mod_bound(t, cap);
                vstd::arithmetic::div_mod::lemma_mod_bound(s, cap);
                if k < i - 1 {
                    crate::arith::lemma_distinct_slots(t, s, cap);
                    assert(rings[i - 1].message(producers[0].next_seq + k) == values[k]);
                }
            }
        }
    } else {
        vstd::arithmetic::div_mod::lemma_small_mod(0, b as nat);
    }
}

/// A skip counts the consumer's lag and leaves none; it never moves the
/// consumer back, and a second one skips nothing. What was skipped is never
/// reported as missed: of all that is pushed later, at most a ring full, the
/// first message comes next, and where more was pushed what is reported starts
/// with it.
pub proof fn a_skip_leaves_what_comes_later<T: NoUninit>(
    producers: Seq<Producer>,
    rings: Seq<RingBuffer<T>>,
    values: Seq<T>,
    before: SlotReader,
    after: SlotReader,
    skipped: u64,
    again: SlotReader,
    skipped_again: u64,
    next: SlotReader,
    r: Result<T, PopError>,
)
    requires
        pushes(producers, rings, values),
        producers[0].inv(&rings[0]),
        producers[0].unpublished == 0,
        producers[0].next_seq + values.len() <= MAX_CURSOR,
        before.inv(rings[0].tail),
        before.cap() == rings[0].cap(),
        before.skips(rings[0].tail, &after, skipped),
        after.skips(rings[0].tail, &again, skipped_again),
        popped(rings.last(), again, next, r),
    ensures
        skipped == rings[0].tail - before.pos,
        after.pos == rings[0].tail,
        after.pos >= before.pos,
        skipped_again == 0,
        again == after,
        match r {
            Ok(v) => 0 < values.len() <= rings[0].cap() && v == values[0],
            Err(PopError::Lagged { missed }) => values.len() > rings[0].cap() && next.pos
                == rings[0].tail + missed,
            Err(PopError::Closed) => rings[0].closed && rings.last().tail == rings[0].tail,
        },
{
    let n = values.len() as int;
    lemma_pushes(producers, rings, values, n);
    if rings.last().tail > rings[0].tail {
        a_lap_overwrites(
            rings.last().slots@,
            producers.last().next_seq as int,
            again.pos as int,
        );
        if n <= rings[0].cap() {
            assert(rings.last().message(producers[0].next_seq + 0) == values[0]);
        }
    }
}

/// Whatever the batch, a consumer that was up to date is handed everything that
/// was pushed, at most a ring full, in order, before it is told that the
/// producer is gone.
pub proof fn everything_pushed_comes_before_closed<T: NoUninit>(
    producers: Seq<Producer>,
    rings: Seq<RingBuffer<T>>,
    values: Seq<T>,
    closed: RingBuffer<T>,
    readers: Seq<SlotReader>,
    results: Seq<Result<T, PopError>>,
)
    requires
        pushes(producers, rings, values),
        producers[0].inv(&rings[0]),
        producers[0].unpublished == 0,
        producers[0].next_seq + values.len() <= MAX_CURSOR,
        values.len() <= rings[0].cap(),
        closed == (RingBuffer { tail: producers.last().next_seq, closed: true, ..rings.last() }),
        readers.len() == values.len() + 2,
        results.len() == values.len() + 1,
        readers[0].pos == rings[0].tail,
        forall|i: int|
            0 <= i < results.len() ==> popped(
                closed,
                readers[i],
                readers[i + 1],
                #[trigger] results[i],
            ),
    ensures
        forall|i: int|
            0 <= i < values.len() ==> #[trigger] results[i] == Ok::<T, PopError>(values[i]),
        results.last() == Err::<T, PopError>(PopError::Closed),
{
    let n = values.len() as int;
    lemma_pushes(producers, rings, values, n);
    assert forall|i: int| 0 <= i < n implies #[trigger] results[i] == Ok::<T, PopError>(
        values[i],
    ) by {
        lemma_drains(producers, rings, values, closed, readers, results, i);
        assert(popped(closed, readers[i], readers[i + 1], results[i]));
        assert(rings.last().message(producers[0].next_seq + i) == values[i]);
    }
    lemma_drains(producers, rings, values, closed, readers, results, n);
    assert(popped(closed, readers[n], readers[n + 1], results[n]));
}

proof fn lemma_drains<T: NoUninit>(
    producers: Seq<Producer>,
    rings: Seq<RingBuffer<T>>,
    values: Seq<T>,
    closed: RingBuffer<T>,
    readers: Seq<SlotReader>,
    results: Seq<Result<T, PopError>>,
    i: int,
)
    requires
        pushes(producers, rings, values),
        producers[0].inv(&rings[0]),
        producers[0].unpublished == 0,
        producers[0].next_seq + values.len() <= MAX_CURSOR,
        values.len() <= rings[0].cap(),
        closed == (RingBuffer { tail: producers.last().next_seq, closed: true, ..rings.last() }),
        readers.len() == values.len() + 2,
        results.len() == values.len() + 1,
        readers[0].pos == rings[0].tail,
        forall|i: int|
            0 <= i < results.len() ==> popped(
                closed,
                readers[i],
                readers[i + 1],
                #[trigger] results[i],
            ),
        0 <= i <= values.len(),
    ensures
        readers[i].pos == rings[0].tail + i,
    decreases i,
{
    if i > 0 {
        lemma_drains(producers, rings, values, closed, readers, results, i - 1);
        lemma_pushes(producers, rings, values, values.len() as int);
        assert(popped(closed, readers[i - 1], readers[i], results[i - 1]));
        assert(rings.last().message(producers[0].next_seq + (i - 1)) == values[i - 1]);
    }
}

/// A push keeps every consumer's invariant, and what a consumer can read
/// under a sequence number is the message that was pushed under it: the push
/// leaves an older message as it is, or makes it unreadable.
pub proof fn a_push_never_forges<T: NoUninit, C>(
    before: Producer,
    ring_before: RingBuffer<T>,
    after: Producer,
    ring_after: RingBuffer<T>,
    value: T,
    consumer: Consumer<C>,
    s: int,
)
    requires
        before.inv(&ring_before),
        consumer.inv(&ring_before),
        before.next_seq < MAX_CURSOR,
        pushed(before, ring_before, after, ring_after, value),
        after.inv(&ring_after),
        0 <= s <= before.next_seq,
    ensures
        consumer.inv(&ring_after),
        s == before.next_seq ==> ring_after.holds(s) && ring_after.message(s) == value,
        s < before.next_seq && ring_after.holds(s) ==> ring_before.holds(s)
            && ring_after.message(s) == ring_before.message(s),
{
    if s < before.next_seq {
        if ring_after.holds(s) {
            a_message_is_kept_or_gone(ring_before.slots@, before.next_seq as int, value, s);
        }
    } else {
        vstd::arithmetic::div_mod::lemma_mod_bound(s, ring_before.cap());
    }
}

/// A consumer is lapped exactly when the producer has pushed more than one
/// lap past it.
pub proof fn lagging_means_lapped<T: NoUninit, C>(
    producer: Producer,
    ring: RingBuffer<T>,
    consumer: Consumer<C>,
)
    requires
        producer.inv(&ring),
        consumer.inv(&ring),
        consumer.reader.pos < ring.tail,
    ensures
        ring.holds(consumer.reader.pos as int) == (producer.next_seq - consumer.reader.pos
            <= ring.cap()),
{
    a_lap_overwrites(ring.slots@, producer.next_seq as int, consumer.reader.pos as int);
}

/// A lapped consumer of a ring whose tail is up to date skips at least one
/// message and lands `slack` messages from the oldest: a whole ring less the
/// slack is there to be read.
pub proof fn a_lapped_consumer_recovers<T: NoUninit, C>(
    producer: Producer,
    ring: RingBuffer<T>,
    consumer: Consumer<C>,
    after: SlotReader,
    missed: u64,
)
    requires
        producer.inv(&ring),
        producer.unpublished == 0,
        consumer.inv(&ring),
        lapped(ring, consumer.reader, after, missed),
    ensures
        missed > 0,
        ring.tail - after.pos == ring.cap() - ring.slack,
        ring.holds(after.pos as int),
{
    a_lap_overwrites(ring.slots@, ring.tail as int, consumer.reader.pos as int);
    a_lapped_reader_catches_up(ring.slots@, consumer.reader, ring.tail);
}

/// A consumer that was moved forward is not lapped again before the producer
/// has pushed more than `slack` messages.
pub proof fn slack_is_headroom<T: NoUninit>(
    producer: Producer,
    ring: RingBuffer<T>,
    later_producer: Producer,
    later: RingBuffer<T>,
    before: SlotReader,
    after: SlotReader,
    missed: u64,
)
    requires
        producer.inv(&ring),
        producer.unpublished == 0,
        before.inv(ring.tail),
        before.cap() == ring.cap(),
        before.slack == ring.slack,
        lapped(ring, before, after, missed),
        later_producer.inv(&later),
        later.cap() == ring.cap(),
        ring.tail <= later_producer.next_seq <= ring.tail + ring.slack,
    ensures
        later.holds(after.pos as int),
{
    a_lap_overwrites(ring.slots@, ring.tail as int, before.pos as int);
    a_lapped_reader_catches_up(ring.slots@, before, ring.tail);
    a_lap_overwrites(later.slots@, later_producer.next_seq as int, after.pos as int);
}

/// The default slack is an eighth of the ring; a ring of two or four messages
/// keeps one, and a single slot none.
pub proof fn the_default_slack_is_an_eighth(capacity: int)
    requires
        ring_capacity(capacity),
    ensures
        capacity >= 8 ==> 8 * slack_of(capacity) == capacity,
        1 < capacity < 8 ==> slack_of(capacity) == 1,
        capacity == 1 ==> slack_of(capacity) == 0,
        0 <= slack_of(capacity) < capacity,
{
    if capacity >= 8 {
        lemma_eighths(capacity);
    }
}

/// A lapped consumer of a ring with the default slack has seven eighths of the
/// ring left to read, and is told of everything before them.
pub proof fn a_lapped_consumer_keeps_seven_eighths<T: NoUninit, C>(
    producer: Producer,
    ring: RingBuffer<T>,
    consumer: Consumer<C>,
    after: SlotReader,
    missed: u64,
)
    requires
        producer.inv(&ring),
        producer.unpublished == 0,
        consumer.inv(&ring),
        ring.cap() >= 8,
        ring.slack == slack_of(ring.cap()),
        lapped(ring, consumer.reader, after, missed),
    ensures
        8 * (ring.tail - after.pos) == 7 * ring.cap(),
        consumer.reader.pos + missed == after.pos,
        forall|s: int| after.pos <= s < ring.tail ==> #[trigger] ring.holds(s),
{
    the_default_slack_is_an_eighth(ring.cap());
    a_lapped_consumer_recovers(producer, ring, consumer, after, missed);
    assert forall|s: int| after.pos <= s < ring.tail implies #[trigger] ring.holds(s) by {
        a_lap_overwrites(ring.slots@, ring.tail as int, s);
    }
}

/// A batch that is asked for within the bounds is granted as it is; one that
/// is not, is cut to an eighth of the ring, or raised to one. Nobody gets a
/// larger batch than they asked for, but for the one.
pub proof fn a_batch_within_the_bounds_is_granted(batch: int, capacity: int)
    requires
        ring_capacity(capacity),
        batch >= 0,
    ensures
        ({
            let granted = clamped(batch, 1, max_tail_batch(capacity));
            &&& 1 <= batch && 8 * batch <= capacity ==> granted == batch
            &&& granted >= 1
            &&& granted == 1 || granted <= batch
            &&& granted == 1 || 8 * granted <= capacity
            &&& 8 * batch > capacity && capacity >= 8 ==> 8 * granted == capacity
        }),
{
    if capacity >= 8 {
        lemma_eighths(capacity);
    }
}

/// With a batch of `b` in force and nothing hidden, `b` pushes show everything,
/// and fewer show nothing.
pub proof fn a_full_batch_is_shown<T: NoUninit>(
    producers: Seq<Producer>,
    rings: Seq<RingBuffer<T>>,
    values: Seq<T>,
    batch: int,
)
    requires
        pushes(producers, rings, values),
        producers[0].inv(&rings[0]),
        producers[0].unpublished == 0,
        producers[0].next_seq + values.len() <= MAX_CURSOR,
        batch >= 0,
        producers[0].tail_batch == clamped(batch, 1, max_tail_batch(rings[0].cap())),
    ensures
        1 <= batch && 8 * batch <= rings[0].cap() && values.len() == batch ==> rings.last().tail
            == rings[0].tail + batch,
        1 <= batch && 8 * batch <= rings[0].cap() && values.len() < batch ==> rings.last().tail
            == rings[0].tail,
        batch <= 1 && values.len() == 1 ==> rings.last().tail == rings[0].tail + 1,
{
    let n = values.len() as int;
    let b = producers[0].tail_batch as int;
    a_batch_within_the_bounds_is_granted(batch, rings[0].cap());
    lemma_pushes(producers, rings, values, n);
    if n < b {
        vstd::arithmetic::div_mod::lemma_small_mod(n as nat, b as nat);
    } else if n == b {
        vstd::arithmetic::div_mod::lemma_mod_self_0(b);
    }
}

/// A new ring is empty, and shows a push at once: the consumer that comes with
/// it is handed the first message first.
pub proof fn a_new_ring_shows_the_first_push<T: NoUninit>(
    ring: RingBuffer<T>,
    producer: Producer,
    reader: SlotReader,
    after: Producer,
    ring_after: RingBuffer<T>,
    value: T,
)
    requires
        fresh(ring, producer, reader),
        pushed(producer, ring, after, ring_after, value),
    ensures
        !ring.closed,
        reader.pos == ring.tail,
        producer.next_seq == ring.tail,
        reader.mask + 1 == ring.cap(),
        reader.slack == ring.slack,
        ring_after.tail == reader.pos + 1,
        ring_after.holds(reader.pos as int),
        ring_after.message(reader.pos as int) == value,
{
    vstd::arithmetic::div_mod::lemma_mod_bound(ring.tail as int, ring.cap());
}

/// A consumer that subscribes is handed nothing of what was published before,
/// and everything from then on, under the ring's slack.
pub proof fn a_subscriber_starts_at_the_tail<T: NoUninit>(ring: RingBuffer<T>, reader: SlotReader)
    requires
        ring.inv(),
        ring.cap() >= 1,
        subscribed(&ring, reader),
    ensures
        reader.pos == ring.tail,
        reader.tail_cache == ring.tail,
        reader.slack == ring.slack,
        reader.mask + 1 == ring.cap(),
{
}

} // verus!
