//! A ring with two kinds of consumers: anchors, which hold the producer back
//! and are handed every message, and observers, which it ignores and which are
//! told how many messages they missed.
//!
//! [`RingBuffer`] is the state that all handles share; every operation takes
//! it beside the handle. An operation that waits (`push`, `claim`, `pop`,
//! `pop_ref`) may be called once its condition holds: poll
//! [`Producer::has_space`], [`Anchor::ready`] or [`Observer::ready`] first.

use crate::arith::{
    lemma_distinct_slots, lemma_eighths, ring_capacity, slot_index, MAX_CAPACITY, MAX_CURSOR,
};
pub use crate::broadcast::{NoUninit, PopError};
use crate::cursor::{a_batch_is_an_eighth, batch_of, lemma_rounded, rounded};
use crate::gate::{
    a_join_keeps_everyone, advanced, hand_over, holds_back, joined, joining_and_leaving_are_counted,
    progress_keeps_other_consumers, progress_keeps_the_producer, stored, Gate, GateConsumer,
    GateProducer,
};
use crate::handler::{lemma_took, took, Handler};
use crate::registry::{active_in, publish_batch_elems, GateSlot, DETACHED, MAX_PUBLISH_BATCH_ELEMS};
use crate::seqlock::{
    a_lap_overwrites, a_lapped_reader_catches_up, a_message_is_kept_or_gone, fresh_slots, holds,
    laid_out, message, with_message, write_slot, Slot, SlotRead, SlotReader,
};
use crate::spmc::{drained, lemma_first_join};
pub use crate::spmc::{Closed, SubscribeError};
use crate::wait::YieldWait;
use vstd::prelude::*;

verus! {

/// The most messages of consumed progress that an anchor defers.
pub const MAX_PUBLISH_BATCH: u64 = 64;

/// The deferred-publish bound of a ring.
pub fn publish_batch(capacity: u64) -> (batch: u64)
    requires
        capacity <= usize::MAX,
    ensures
        batch == batch_of(capacity as int, MAX_PUBLISH_BATCH as int),
{
    publish_batch_elems(capacity)
}

/// The real capacity of a ring: a power of two, at least two.
pub fn round_capacity(min_capacity: usize) -> (r: usize)
    requires
        0 < min_capacity <= usize::MAX / 2 + 1,
    ensures
        r == rounded(min_capacity as int, 2),
{
    crate::cursor::round_capacity(min_capacity, 2)
}

/// The reposition slack of a ring: an eighth of the capacity, at least one
/// slot.
pub open spec fn slack_of(capacity: int) -> int {
    if capacity < 8 {
        1
    } else {
        capacity / 8
    }
}

/// The reposition slack of a ring.
pub fn default_slack(capacity: u64) -> (r: u64)
    ensures
        r == slack_of(capacity as int),
{
    let slack: u64 = capacity / 8;
    if slack == 0 {
        1
    } else {
        slack
    }
}

/// Where a lapped observer continues.
pub fn reposition_target(tail: u64, capacity: u64, slack: u64) -> (r: u64)
    ensures
        r == crate::seqlock::target(tail as int, capacity as int, slack as int),
{
    crate::seqlock::reposition_target(tail, capacity, slack)
}

/// The ring: its slots, and what producer and anchors publish.
pub struct RingBuffer<T, P = YieldWait, C = YieldWait> {
    pub slots: Vec<Slot<T>>,
    pub slack: u64,
    pub gate: Gate,
    pub producer_wait: P,
    pub consumer_wait: C,
}

impl<T: NoUninit, P, C> RingBuffer<T, P, C> {
    /// Slots in the ring.
    pub open spec fn cap(&self) -> int {
        self.slots@.len() as int
    }

    /// The message at sequence `s`.
    pub open spec fn message(&self, s: int) -> T {
        message(self.slots@, s)
    }

    /// Whether message `s` is still in its slot.
    pub open spec fn holds(&self, s: int) -> bool {
        holds(self.slots@, s)
    }

    /// The slots are laid out as the published messages left them.
    pub open spec fn inv(&self) -> bool {
        &&& self.cap() >= 2
        &&& self.slack < self.cap()
        &&& self.gate.inv()
        &&& laid_out(self.slots@, self.gate.tail as int)
    }

    /// Every anchor leaves room for one more message.
    pub open spec fn has_room(&self) -> bool {
        self.gate@.open_for(1, self.cap())
    }

    /// A fresh ring, its producer and one anchor, with the default slack.
    pub fn with_wait_strategies(min_capacity: usize) -> (r: (Self, Producer, Anchor)) where
        P: Default,
        C: Default,

        requires
            0 < min_capacity <= MAX_CAPACITY,
            vstd::layout::size_of::<T>() != 0,
        ensures
            r.0.cap() == rounded(min_capacity as int, 2),
            r.0.slack == slack_of(r.0.cap()),
            fresh(r.0, r.1, r.2),
    {
        proof {
            reveal_with_fuel(vstd::arithmetic::power2::is_pow2, 3);
            lemma_rounded(min_capacity as int, 2);
        }
        let capacity: usize = round_capacity(min_capacity);
        Self::build(capacity, default_slack(capacity as u64) as usize)
    }

    /// A fresh ring with an explicit slack: how many messages of headroom a
    /// lapped observer keeps from the oldest message.
    pub fn with_slack(min_capacity: usize, slack: usize) -> (r: (Self, Producer, Anchor)) where
        P: Default,
        C: Default,

        requires
            0 < min_capacity <= MAX_CAPACITY,
            slack < rounded(min_capacity as int, 2),
            vstd::layout::size_of::<T>() != 0,
        ensures
            r.0.cap() == rounded(min_capacity as int, 2),
            r.0.slack == slack,
            fresh(r.0, r.1, r.2),
    {
        proof {
            reveal_with_fuel(vstd::arithmetic::power2::is_pow2, 3);
            lemma_rounded(min_capacity as int, 2);
        }
        let capacity: usize = round_capacity(min_capacity);
        Self::build(capacity, slack)
    }

    fn build(capacity: usize, slack: usize) -> (r: (Self, Producer, Anchor)) where
        P: Default,
        C: Default,

        requires
            ring_capacity(capacity as int),
            2 <= capacity,
            slack < capacity,
        ensures
            r.0.cap() == capacity,
            r.0.slack == slack,
            fresh(r.0, r.1, r.2),
    {
        let slots: Vec<Slot<T>> = fresh_slots(capacity);
        let mut gate = Gate::new();
        let ghost before = gate.registry@;
        let core = GateConsumer::join(&mut gate, (capacity - 1) as u64);
        proof {
            lemma_first_join(before, gate.registry@, core.slot.at());
        }
        let producer = Producer { core: GateProducer::new(capacity) };
        (
            RingBuffer {
                slots,
                slack: slack as u64,
                gate,
                producer_wait: P::default(),
                consumer_wait: C::default(),
            },
            producer,
            Anchor { core },
        )
    }
}

impl<T: NoUninit> RingBuffer<T> {
    /// A fresh ring with the default wait strategies and the default slack.
    pub fn new(min_capacity: usize) -> (r: (Self, Producer, Anchor))
        requires
            0 < min_capacity <= MAX_CAPACITY,
            vstd::layout::size_of::<T>() != 0,
        ensures
            r.0.cap() == rounded(min_capacity as int, 2),
            r.0.slack == slack_of(r.0.cap()),
            fresh(r.0, r.1, r.2),
    {
        Self::with_wait_strategies(min_capacity)
    }
}

/// A ring in which nothing was pushed, its producer and one anchor.
pub open spec fn fresh<T: NoUninit, P, C>(
    ring: RingBuffer<T, P, C>,
    producer: Producer,
    anchor: Anchor,
) -> bool {
    &&& ring.inv()
    &&& ring.gate.tail == 0
    &&& !ring.gate.closed
    &&& active_in(ring.gate.registry@) == 1
    &&& producer.inv(&ring)
    &&& producer.core.next_seq == 0
    &&& producer.core.known_lag() == 0
    &&& anchor.inv(&ring)
    &&& anchor.pending(&ring).len() == 0
}

/// The outcome of an anchor's subscription.
pub open spec fn subscribed<T: NoUninit, P, C>(
    before: RingBuffer<T, P, C>,
    after: RingBuffer<T, P, C>,
    r: Result<Anchor, SubscribeError>,
) -> bool {
    match r {
        Ok(anchor) => {
            &&& !before.gate.closed
            &&& after == (RingBuffer { gate: after.gate, ..before })
            &&& joined(before.gate@, after.gate@, anchor.core.slot.at())
            &&& anchor.inv(&after)
            &&& anchor.core.read_cursor == before.gate.tail
            &&& anchor.pending(&after).len() == 0
        },
        Err(e) => e == SubscribeError::Closed && before.gate.closed && after == before,
    }
}

/// Register an anchor, unless the producer is gone.
fn subscribe_from<T: NoUninit, P, C>(ring: &mut RingBuffer<T, P, C>, mask: u64) -> (r: Result<
    Anchor,
    SubscribeError,
>)
    requires
        old(ring).inv(),
        mask + 1 == old(ring).cap(),
    ensures
        subscribed(*old(ring), *final(ring), r),
        final(ring).gate.inv(),
{
    if ring.gate.closed {
        return Err(SubscribeError::Closed);
    }
    let core = GateConsumer::join(&mut ring.gate, mask);
    Ok(Anchor { core })
}

/// A reader that sees what is published from now on.
pub open spec fn observing<T: NoUninit, P, C>(
    ring: &RingBuffer<T, P, C>,
    reader: SlotReader,
) -> bool {
    reader == SlotReader {
        mask: (ring.cap() - 1) as u64,
        slack: ring.slack,
        pos: ring.gate.tail,
        tail_cache: ring.gate.tail,
    }
}

fn observe_from<T: NoUninit, P, C, W: Default>(ring: &RingBuffer<T, P, C>) -> (r: Observer<W>)
    requires
        ring.inv(),
    ensures
        observing(ring, r.reader),
        r.inv(ring),
{
    let mask: u64 = ring.slots.len() as u64 - 1;
    Observer { reader: SlotReader::join(mask, ring.slack, ring.gate.tail), wait: W::default() }
}

/// The producing half.
pub struct Producer {
    pub core: GateProducer,
}

impl Producer {
    /// The producer belongs to the ring.
    pub open spec fn inv<T: NoUninit, P, C>(&self, ring: &RingBuffer<T, P, C>) -> bool {
        &&& ring.inv()
        &&& self.core.inv(ring.gate@)
        &&& self.core.cap() == ring.cap()
    }

    /// A slot is granted: the slowest known anchor leaves room for it.
    pub open spec fn granted(&self) -> bool {
        self.core.known_lag() + 1 <= self.core.cap()
    }

    /// The slowest known anchor leaves no room.
    pub open spec fn looks_full(&self) -> bool {
        !self.granted()
    }

    /// Whether a slot is free: the condition that `push` and `claim` wait
    /// for.
    pub fn has_space<T: NoUninit, P, C>(&mut self, ring: &RingBuffer<T, P, C>) -> (r: bool)
        requires
            old(self).inv(ring),
        ensures
            r == ring.has_room(),
            old(self).core.asked(&final(self).core, ring.gate@, 1),
            final(self).inv(ring),
            r == final(self).granted(),
    {
        self.core.has_space(&ring.gate, 1)
    }

    /// Publish `value`. Waits for [`has_space`](Self::has_space).
    pub fn push<T: NoUninit, P, C>(&mut self, ring: &mut RingBuffer<T, P, C>, value: T)
        requires
            old(self).inv(old(ring)),
            old(ring).has_room(),
            old(ring).gate.tail < MAX_CURSOR,
        ensures
            sent(*old(self), *old(ring), *final(self), *final(ring), value),
            final(self).inv(final(ring)),
    {
        self.has_space(ring);
        let ghost asked = self.core;
        self.write(ring, value);
        assert(old(self).core.asked(&asked, old(ring).gate@, 1));
    }

    /// Publish `value` if the slowest anchor leaves room for it, else give it
    /// back.
    pub fn try_push<T: NoUninit, P, C>(
        &mut self,
        ring: &mut RingBuffer<T, P, C>,
        value: T,
    ) -> (r: Result<(), T>)
        requires
            old(self).inv(old(ring)),
            old(ring).gate.tail < MAX_CURSOR,
        ensures
            try_pushed(*old(self), *old(ring), *final(self), *final(ring), value, r),
            final(self).inv(final(ring)),
    {
        if !self.has_space(ring) {
            return Err(value);
        }
        let ghost asked = self.core;
        self.write(ring, value);
        assert(old(self).core.asked(&asked, old(ring).gate@, 1));
        Ok(())
    }

    /// Claim the next slot. Waits for [`has_space`](Self::has_space).
    pub fn claim<T: NoUninit, P, C>(&mut self, ring: &RingBuffer<T, P, C>) -> (r: WriteSlot)
        requires
            old(self).inv(ring),
            ring.has_room(),
        ensures
            claimed(*old(self), *ring, *final(self), r),
            final(self).inv(ring),
    {
        self.has_space(ring);
        WriteSlot { seq: self.core.next_seq }
    }

    /// Claim the next slot if the slowest anchor leaves room.
    pub fn try_claim<T: NoUninit, P, C>(&mut self, ring: &RingBuffer<T, P, C>) -> (r: Option<
        WriteSlot,
    >)
        requires
            old(self).inv(ring),
        ensures
            try_claimed(*old(self), *ring, *final(self), r),
            final(self).inv(ring),
    {
        if !self.has_space(ring) {
            return None;
        }
        Some(WriteSlot { seq: self.core.next_seq })
    }

    /// Register another anchor. It is handed what is published from now on.
    pub fn subscribe_anchor<T: NoUninit, P, C>(&self, ring: &mut RingBuffer<T, P, C>) -> (r: Result<
        Anchor,
        SubscribeError,
    >)
        requires
            self.inv(old(ring)),
        ensures
            subscribed(*old(ring), *final(ring), r),
            self.inv(final(ring)),
    {
        let r = subscribe_from(ring, self.core.mask);
        proof {
            if r is Ok {
                a_join_keeps_everyone(
                    self.core,
                    r->Ok_0.core,
                    old(ring).gate@,
                    ring.gate@,
                    r->Ok_0.core.slot.at(),
                );
            }
        }
        r
    }

    /// An observer, which sees what is published from now on.
    pub fn subscribe_observer<T: NoUninit, P, C: Default>(
        &self,
        ring: &RingBuffer<T, P, C>,
    ) -> (r: Observer<C>)
        requires
            self.inv(ring),
        ensures
            observing(ring, r.reader),
            r.inv(ring),
    {
        observe_from(ring)
    }

    /// The number of anchors (capped at what a machine word can count).
    pub fn anchor_count<T: NoUninit, P, C>(&self, ring: &RingBuffer<T, P, C>) -> (r: usize)
        ensures
            r == (if active_in(ring.gate.registry@) <= usize::MAX {
                active_in(ring.gate.registry@) as int
            } else {
                usize::MAX as int
            }),
    {
        ring.gate.registry.active_count()
    }

    /// Write a message into the granted slot and publish it.
    pub fn write<T: NoUninit, P, C>(&mut self, ring: &mut RingBuffer<T, P, C>, value: T)
        requires
            old(self).inv(old(ring)),
            old(self).granted(),
            old(ring).gate.tail < MAX_CURSOR,
        ensures
            final(self).core == (GateProducer {
                next_seq: (old(self).core.next_seq + 1) as u64,
                ..old(self).core
            }),
            pushed(*old(ring), *final(ring), value),
            final(self).inv(final(ring)),
    {
        let s: u64 = self.core.next_seq;
        write_slot(&mut ring.slots, self.core.mask, s, value);
        self.core.publish(&mut ring.gate, 1);
    }

    /// How far the slowest known anchor is behind: an upper bound of every
    /// anchor's backlog.
    pub fn len(&self) -> (r: usize)
        requires
            self.core.known_lag() <= self.core.cap(),
            ring_capacity(self.core.cap()),
        ensures
            r == self.core.known_lag(),
    {
        self.core.next_seq.wrapping_sub(self.core.cached_min) as usize
    }

    /// Whether every known anchor has caught up.
    pub fn is_empty(&self) -> (r: bool)
        requires
            self.core.known_lag() <= self.core.cap(),
            ring_capacity(self.core.cap()),
        ensures
            r == (self.core.known_lag() == 0),
    {
        self.len() == 0
    }

    /// Whether the slowest known anchor leaves no room.
    pub fn is_full(&self) -> (r: bool)
        requires
            self.core.known_lag() <= self.core.cap(),
            ring_capacity(self.core.cap()),
        ensures
            r == self.looks_full(),
            r == (self.core.known_lag() == self.core.cap()),
    {
        crate::registry::lacks_space(
            self.core.next_seq,
            1,
            self.core.cached_min,
            self.core.mask + 1,
        )
    }

    /// Messages published so far.
    pub fn tail(&self) -> (r: u64)
        ensures
            r == self.core.next_seq,
    {
        self.core.next_seq
    }

    /// Slots in the ring.
    pub fn capacity(&self) -> (r: usize)
        requires
            ring_capacity(self.core.cap()),
        ensures
            r == self.core.cap(),
    {
        (self.core.mask + 1) as usize
    }

    /// Give the producing half up: consumers of both kinds drain what is left
    /// and then see that the ring is closed.
    pub fn close<T: NoUninit, P, C>(self, ring: &mut RingBuffer<T, P, C>)
        requires
            self.inv(old(ring)),
        ensures
            *final(ring) == (RingBuffer {
                gate: Gate { closed: true, ..old(ring).gate },
                ..*old(ring)
            }),
            final(ring).inv(),
    {
        ring.gate.close();
    }
}

/// What publishing `value` does.
pub open spec fn sent<T: NoUninit, P, C>(
    producer: Producer,
    ring: RingBuffer<T, P, C>,
    producer_after: Producer,
    ring_after: RingBuffer<T, P, C>,
    value: T,
) -> bool {
    &&& pushed(ring, ring_after, value)
    &&& producer.core.spent(&producer_after.core, ring.gate@, 1)
}

/// What trying to publish `value` comes to.
pub open spec fn try_pushed<T: NoUninit, P, C>(
    producer: Producer,
    ring: RingBuffer<T, P, C>,
    producer_after: Producer,
    ring_after: RingBuffer<T, P, C>,
    value: T,
    r: Result<(), T>,
) -> bool {
    match r {
        Ok(()) => ring.has_room() && sent(producer, ring, producer_after, ring_after, value),
        Err(v) => {
            &&& !ring.has_room()
            &&& v == value
            &&& ring_after == ring
            &&& producer.core.asked(&producer_after.core, ring.gate@, 1)
        },
    }
}

/// What claiming the next slot does; the ring stays as it is.
pub open spec fn claimed<T: NoUninit, P, C>(
    producer: Producer,
    ring: RingBuffer<T, P, C>,
    producer_after: Producer,
    slot: WriteSlot,
) -> bool {
    &&& producer.core.asked(&producer_after.core, ring.gate@, 1)
    &&& slot.claims(&producer_after, &ring)
}

/// What trying to claim the next slot comes to.
pub open spec fn try_claimed<T: NoUninit, P, C>(
    producer: Producer,
    ring: RingBuffer<T, P, C>,
    producer_after: Producer,
    r: Option<WriteSlot>,
) -> bool {
    match r {
        Some(slot) => ring.has_room() && claimed(producer, ring, producer_after, slot),
        None => !ring.has_room() && producer.core.asked(&producer_after.core, ring.gate@, 1),
    }
}

/// What storing `value` in a claimed slot and publishing it does.
pub open spec fn committed<T: NoUninit, P, C>(
    producer: Producer,
    ring: RingBuffer<T, P, C>,
    producer_after: Producer,
    ring_after: RingBuffer<T, P, C>,
    value: T,
) -> bool {
    &&& pushed(ring, ring_after, value)
    &&& producer_after.core == (GateProducer {
        next_seq: (producer.core.next_seq + 1) as u64,
        ..producer.core
    })
}

/// `after` is `before` with `value` published.
pub open spec fn pushed<T: NoUninit, P, C>(
    before: RingBuffer<T, P, C>,
    after: RingBuffer<T, P, C>,
    value: T,
) -> bool {
    &&& after.slots@ == with_message(before.slots@, before.gate.tail as int, value)
    &&& advanced(before.gate@, after.gate@, 1)
    &&& after.slack == before.slack
    &&& after.producer_wait == before.producer_wait
    &&& after.consumer_wait == before.consumer_wait
}

/// A claimed slot. It is published by a commit; a claim that is let go
/// publishes nothing.
pub struct WriteSlot {
    pub seq: u64,
}

impl WriteSlot {
    /// The claim is on the producer's next slot, which is granted.
    pub open spec fn claims<T: NoUninit, P, C>(
        &self,
        producer: &Producer,
        ring: &RingBuffer<T, P, C>,
    ) -> bool {
        &&& self.seq == producer.core.next_seq
        &&& producer.inv(ring)
        &&& producer.granted()
    }

    /// Write `value` into the slot and publish it.
    pub fn commit<T: NoUninit, P, C>(
        self,
        producer: &mut Producer,
        ring: &mut RingBuffer<T, P, C>,
        value: T,
    )
        requires
            self.claims(old(producer), old(ring)),
            old(ring).gate.tail < MAX_CURSOR,
        ensures
            committed(*old(producer), *old(ring), *final(producer), *final(ring), value),
            final(producer).inv(final(ring)),
    {
        producer.write(ring, value);
    }
}

/// A consumer that holds the producer back.
pub struct Anchor {
    pub core: GateConsumer,
}

impl Anchor {
    /// The messages that the anchor will be handed, oldest first: all that
    /// was published since it joined and that it has not consumed.
    pub open spec fn pending<T: NoUninit, P, C>(&self, ring: &RingBuffer<T, P, C>) -> Seq<T> {
        Seq::new(
            self.core.unread(ring.gate@) as nat,
            |i: int| ring.message(self.core.read_cursor + i),
        )
    }

    /// The anchor belongs to the ring.
    pub open spec fn inv<T: NoUninit, P, C>(&self, ring: &RingBuffer<T, P, C>) -> bool {
        &&& ring.inv()
        &&& self.core.inv(ring.gate@)
        &&& self.core.cap() == ring.cap()
    }

    /// The condition that `pop` and `pop_ref` wait for.
    pub open spec fn is_ready<T: NoUninit, P, C>(&self, ring: &RingBuffer<T, P, C>) -> bool {
        self.pending(ring).len() > 0 || ring.gate.closed
    }

    /// The copy of the producer's cursor after a look for a message.
    pub open spec fn looked_up<T: NoUninit, P, C>(&self, ring: &RingBuffer<T, P, C>) -> u64 {
        if self.core.write_cache == self.core.read_cursor {
            ring.gate.tail
        } else {
            self.core.write_cache
        }
    }

    /// `after` is the anchor one message further, with `cache` as its copy of
    /// the producer's cursor.
    pub open spec fn next(&self, after: &Self, cache: u64) -> bool {
        let batch = batch_of(self.core.cap(), MAX_PUBLISH_BATCH_ELEMS as int) as u64;
        let core = GateConsumer { write_cache: cache, ..self.core };
        let full = cache - self.core.read_cursor > self.core.cap() - 1;
        after.core == GateConsumer {
            read_cursor: (core.read_cursor + 1) as u64,
            published: if core.publishes(1, full, batch) {
                (core.read_cursor + 1) as u64
            } else {
                core.published
            },
            ..core
        }
    }

    /// Whether `pop` and `pop_ref` can be answered: a message is there, or
    /// none will come.
    pub fn ready<T: NoUninit, P, C>(&self, ring: &RingBuffer<T, P, C>) -> (r: bool)
        requires
            self.inv(ring),
        ensures
            r == self.is_ready(ring),
    {
        ring.gate.tail != self.core.read_cursor || ring.gate.closed
    }

    /// Consume the oldest message. Waits for [`ready`](Self::ready).
    pub fn pop<T: NoUninit, P, C>(&mut self, ring: &mut RingBuffer<T, P, C>) -> (r: Result<
        T,
        Closed,
    >)
        requires
            old(self).inv(old(ring)),
            old(self).is_ready(old(ring)),
        ensures
            match r {
                Ok(value) => {
                    &&& old(self).pending(old(ring)).len() > 0
                    &&& old(self).next(final(self), old(self).looked_up(old(ring)))
                    &&& value == old(self).pending(old(ring))[0]
                    &&& final(self).pending(final(ring)) == old(self).pending(
                        old(ring),
                    ).drop_first()
                },
                Err(_) => {
                    &&& old(self).pending(old(ring)).len() == 0
                    &&& old(ring).gate.closed
                    &&& *final(ring) == *old(ring)
                    &&& looked(*old(ring), *old(self), *final(self))
                    &&& final(self).pending(final(ring)) == old(self).pending(old(ring))
                },
            },
            moved(*old(ring), *final(ring), *old(self), *final(self)),
            final(self).inv(final(ring)),
    {
        if self.has_item(ring) {
            return Ok(self.read(ring));
        }
        proof {
            lemma_same_slot(*ring, *self);
        }
        match self.check_closed(ring) {
            Err(e) => Err(e),
            Ok(()) => Ok(self.read(ring)),
        }
    }

    /// Consume the oldest message if there is one; `Closed` once the producer
    /// is gone and everything is consumed.
    pub fn try_pop<T: NoUninit, P, C>(&mut self, ring: &mut RingBuffer<T, P, C>) -> (r: Result<
        Option<T>,
        Closed,
    >)
        requires
            old(self).inv(old(ring)),
        ensures
            match r {
                Ok(Some(value)) => {
                    &&& old(self).pending(old(ring)).len() > 0
                    &&& old(self).next(final(self), old(self).looked_up(old(ring)))
                    &&& value == old(self).pending(old(ring))[0]
                    &&& final(self).pending(final(ring)) == old(self).pending(
                        old(ring),
                    ).drop_first()
                },
                Ok(None) => {
                    &&& old(self).pending(old(ring)).len() == 0
                    &&& !old(ring).gate.closed
                    &&& *final(ring) == *old(ring)
                    &&& looked(*old(ring), *old(self), *final(self))
                    &&& final(self).pending(final(ring)) == old(self).pending(old(ring))
                },
                Err(_) => {
                    &&& old(self).pending(old(ring)).len() == 0
                    &&& old(ring).gate.closed
                    &&& *final(ring) == *old(ring)
                    &&& looked(*old(ring), *old(self), *final(self))
                    &&& final(self).pending(final(ring)) == old(self).pending(old(ring))
                },
            },
            moved(*old(ring), *final(ring), *old(self), *final(self)),
            final(self).inv(final(ring)),
    {
        if self.has_item(ring) {
            return Ok(Some(self.read(ring)));
        }
        proof {
            lemma_same_slot(*ring, *self);
        }
        match self.check_closed(ring) {
            Err(e) => return Err(e),
            Ok(()) => {},
        }
        if self.core.available_cached() != 0 {
            return Ok(Some(self.read(ring)));
        }
        Ok(None)
    }

    /// Borrow the oldest message. Waits for [`ready`](Self::ready).
    pub fn pop_ref<T: NoUninit, P, C>(&mut self, ring: &RingBuffer<T, P, C>) -> (r: Result<
        PopRef,
        Closed,
    >)
        requires
            old(self).inv(ring),
            old(self).is_ready(ring),
        ensures
            match r {
                Ok(borrow) => old(self).pending(ring).len() > 0 && borrow.borrows(
                    final(self),
                    ring,
                ),
                Err(_) => old(self).pending(ring).len() == 0 && ring.gate.closed,
            },
            final(self).pending(ring) == old(self).pending(ring),
            looked(*ring, *old(self), *final(self)),
            final(self).inv(ring),
    {
        if self.has_item(ring) {
            return Ok(PopRef { seq: self.core.read_cursor });
        }
        match self.check_closed(ring) {
            Err(e) => Err(e),
            Ok(()) => Ok(PopRef { seq: self.core.read_cursor }),
        }
    }

    /// Borrow the oldest message if there is one.
    pub fn try_pop_ref<T: NoUninit, P, C>(&mut self, ring: &RingBuffer<T, P, C>) -> (r: Result<
        Option<PopRef>,
        Closed,
    >)
        requires
            old(self).inv(ring),
        ensures
            match r {
                Ok(Some(borrow)) => old(self).pending(ring).len() > 0 && borrow.borrows(
                    final(self),
                    ring,
                ),
                Ok(None) => old(self).pending(ring).len() == 0 && !ring.gate.closed,
                Err(_) => old(self).pending(ring).len() == 0 && ring.gate.closed,
            },
            final(self).pending(ring) == old(self).pending(ring),
            looked(*ring, *old(self), *final(self)),
            final(self).inv(ring),
    {
        if self.has_item(ring) {
            return Ok(Some(PopRef { seq: self.core.read_cursor }));
        }
        match self.check_closed(ring) {
            Err(e) => return Err(e),
            Ok(()) => {},
        }
        if self.core.available_cached() != 0 {
            return Ok(Some(PopRef { seq: self.core.read_cursor }));
        }
        Ok(None)
    }

    /// Consume a batch: everything in the ring, at most the deferred-publish
    /// bound. Each message is handed to `f` in place, oldest first; the
    /// progress is published once, after the last. The number of messages.
    ///
    /// A message counts as consumed before `f` sees it, and where `f` unwinds
    /// the progress is published on the way out (see [`hand_over`]).
    pub fn drain<T: NoUninit, P, C, H: Handler<T>>(
        &mut self,
        ring: &mut RingBuffer<T, P, C>,
        f: H,
    ) -> (r: usize)
        requires
            old(self).inv(old(ring)),
            forall|i: int|
                0 <= i < old(self).pending(old(ring)).len() ==> f.accepts(
                    &(#[trigger] old(self).pending(old(ring))[i]),
                ),
        ensures
            r == drained(old(self).pending(old(ring)).len() as int, old(ring).cap()),
            exists|after: H| #[trigger]
                took(f, old(self).pending(old(ring)).take(r as int), after) && has_resolved(after),
            final(self).pending(final(ring)) == old(self).pending(old(ring)).skip(r as int),
            final(self).core == (GateConsumer {
                read_cursor: (old(self).core.read_cursor + r) as u64,
                published: if r == 0 {
                    old(self).core.published
                } else {
                    (old(self).core.read_cursor + r) as u64
                },
                write_cache: old(ring).gate.tail,
                ..old(self).core
            }),
            moved(*old(ring), *final(ring), *old(self), *final(self)),
            final(self).inv(final(ring)),
    {
        let mut f = f;
        let ghost g = f;
        let end: u64 = self.core.refresh(&ring.gate);
        let available: u64 = end.wrapping_sub(self.core.read_cursor);
        if available == 0 {
            proof {
                lemma_same_slot(*ring, *self);
                assert(self.pending(ring) =~= old(self).pending(old(ring)).skip(0));
                assert(took(g, old(self).pending(old(ring)).take(0), f));
            }
            return 0;
        }
        let batch: u64 = publish_batch_elems(self.core.mask + 1);
        let count: u64 = if available < batch {
            available
        } else {
            batch
        };
        let ghost start = self.core.read_cursor;
        let ghost pending = old(self).pending(old(ring));
        let mut i: u64 = 0;
        while i < count
            invariant
                i <= count,
                count <= available,
                start + available == ring.gate.tail,
                start == old(self).core.read_cursor,
                *ring == (RingBuffer { gate: ring.gate, ..*old(ring) }),
                ring.gate.inv(),
                ring.gate@ == old(ring).gate@,
                old(self).inv(old(ring)),
                pending == old(self).pending(old(ring)),
                self.core == (GateConsumer {
                    read_cursor: (start + i) as u64,
                    write_cache: old(ring).gate.tail,
                    ..old(self).core
                }),
                forall|j: int| 0 <= j < pending.len() ==> f.accepts(&(#[trigger] pending[j])),
                took(g, pending.take(i as int), f),
            decreases count - i,
        {
            let index: usize = slot_index(self.core.read_cursor, self.core.mask);
            self.core.read_cursor = self.core.read_cursor.wrapping_add(1);
            proof {
                assert(holds(ring.slots@, (start + i) as int));
            }
            let value: &T = ring.slots[index].data.as_ref().unwrap();
            assert(*value == pending[i as int]);
            let place: &mut u64 = ring.gate.registry.place(self.core.slot);
            let ghost mid = f;
            hand_over(&mut self.core, Some(place), &mut f, value);
            proof {
                lemma_same_slot(*old(ring), *old(self));
                lemma_took(g, pending.take(i as int), mid, *value, f);
                assert(pending.take(i as int).push(*value) =~= pending.take(i + 1));
            }
            i += 1;
        }
        self.core.flush_pending(&mut ring.gate);
        proof {
            assert(self.pending(ring) =~= old(self).pending(old(ring)).skip(count as int));
        }
        count as usize
    }

    /// Register another anchor. It is handed what is published from now on.
    pub fn subscribe_anchor<T: NoUninit, P, C>(&self, ring: &mut RingBuffer<T, P, C>) -> (r: Result<
        Anchor,
        SubscribeError,
    >)
        requires
            self.inv(old(ring)),
        ensures
            subscribed(*old(ring), *final(ring), r),
            self.inv(final(ring)),
            self.pending(final(ring)) == self.pending(old(ring)),
            r matches Ok(other) ==> other.core.slot.at() != self.core.slot.at(),
    {
        let r = subscribe_from(ring, self.core.mask);
        proof {
            if r is Ok {
                a_join_keeps_everyone(
                    arbitrary(),
                    self.core,
                    old(ring).gate@,
                    ring.gate@,
                    r->Ok_0.core.slot.at(),
                );
            }
            assert(self.pending(ring) =~= self.pending(old(ring)));
        }
        r
    }

    /// An observer, which sees what is published from now on.
    pub fn subscribe_observer<T: NoUninit, P, C: Default>(
        &self,
        ring: &RingBuffer<T, P, C>,
    ) -> (r: Observer<C>)
        requires
            self.inv(ring),
        ensures
            observing(ring, r.reader),
            r.inv(ring),
    {
        observe_from(ring)
    }

    /// The number of pending messages.
    pub fn len<T: NoUninit, P, C>(&self, ring: &RingBuffer<T, P, C>) -> (r: usize)
        requires
            self.inv(ring),
        ensures
            r == self.pending(ring).len(),
    {
        ring.gate.tail.wrapping_sub(self.core.read_cursor) as usize
    }

    /// Whether nothing is pending.
    pub fn is_empty<T: NoUninit, P, C>(&self, ring: &RingBuffer<T, P, C>) -> (r: bool)
        requires
            self.inv(ring),
        ensures
            r == (self.pending(ring).len() == 0),
    {
        self.len(ring) == 0
    }

    /// Slots in the ring.
    pub fn capacity(&self) -> (r: usize)
        requires
            ring_capacity(self.core.cap()),
        ensures
            r == self.core.cap(),
    {
        (self.core.mask + 1) as usize
    }

    /// Whether a message is pending.
    pub fn has_item<T: NoUninit, P, C>(&mut self, ring: &RingBuffer<T, P, C>) -> (r: bool)
        requires
            old(self).inv(ring),
        ensures
            r == (old(self).pending(ring).len() > 0),
            final(self).core == (GateConsumer {
                write_cache: old(self).looked_up(ring),
                ..old(self).core
            }),
            final(self).inv(ring),
            final(self).pending(ring) == old(self).pending(ring),
            r ==> final(self).core.read_cursor < final(self).core.write_cache,
    {
        let r: bool = self.core.has_item(&ring.gate);
        proof {
            assert(self.pending(ring) =~= old(self).pending(ring));
        }
        r
    }

    /// `Closed` where the producer is gone and a fresh look finds nothing.
    pub fn check_closed<T: NoUninit, P, C>(&mut self, ring: &RingBuffer<T, P, C>) -> (r: Result<
        (),
        Closed,
    >)
        requires
            old(self).inv(ring),
        ensures
            r is Err == (ring.gate.closed && old(self).pending(ring).len() == 0),
            final(self).core == (GateConsumer {
                write_cache: if ring.gate.closed {
                    ring.gate.tail
                } else {
                    old(self).core.write_cache
                },
                ..old(self).core
            }),
            final(self).inv(ring),
            final(self).pending(ring) == old(self).pending(ring),
    {
        if ring.gate.closed {
            self.core.refresh(&ring.gate);
            proof {
                assert(self.pending(ring) =~= old(self).pending(ring));
            }
            if self.core.available_cached() == 0 {
                return Err(Closed);
            }
        }
        Ok(())
    }

    /// Copy the oldest message and step past it.
    pub fn read<T: NoUninit, P, C>(&mut self, ring: &mut RingBuffer<T, P, C>) -> (r: T)
        requires
            old(self).inv(old(ring)),
            old(self).core.read_cursor < old(self).core.write_cache,
        ensures
            r == old(self).pending(old(ring))[0],
            old(self).next(final(self), old(self).core.write_cache),
            final(self).pending(final(ring)) == old(self).pending(old(ring)).drop_first(),
            moved(*old(ring), *final(ring), *old(self), *final(self)),
            final(self).inv(final(ring)),
    {
        let index: usize = slot_index(self.core.read_cursor, self.core.mask);
        proof {
            assert(holds(ring.slots@, self.core.read_cursor as int));
        }
        let value: T = ring.slots[index].data.unwrap();
        self.advance_one(ring);
        value
    }

    /// Step past the oldest message. The progress is published where the ring
    /// was full, where the known messages are drained, or where the bound on
    /// deferred progress is reached.
    pub fn advance_one<T: NoUninit, P, C>(&mut self, ring: &mut RingBuffer<T, P, C>)
        requires
            old(self).inv(old(ring)),
            old(self).core.read_cursor < old(self).core.write_cache,
        ensures
            old(self).next(final(self), old(self).core.write_cache),
            final(self).pending(final(ring)) == old(self).pending(old(ring)).drop_first(),
            moved(*old(ring), *final(ring), *old(self), *final(self)),
            final(self).inv(final(ring)),
    {
        let capacity: u64 = self.core.mask + 1;
        let was_full: bool = self.core.write_cache.wrapping_sub(self.core.read_cursor) > capacity
            - 1;
        let batch: u64 = publish_batch_elems(capacity);
        self.core.advance(&mut ring.gate, 1, was_full, batch);
        proof {
            assert(self.pending(ring) =~= old(self).pending(old(ring)).drop_first());
        }
    }

    /// Leave the ring. The slot no longer holds the producer back.
    pub fn detach<T: NoUninit, P, C>(self, ring: &mut RingBuffer<T, P, C>)
        requires
            self.inv(old(ring)),
        ensures
            *final(ring) == (RingBuffer { gate: final(ring).gate, ..*old(ring) }),
            stored(
                old(ring).gate@,
                final(ring).gate@,
                self.core.slot.at(),
                GateSlot { active: false, cursor: DETACHED },
            ),
            final(ring).inv(),
    {
        self.core.detach(&mut ring.gate);
    }
}

/// Looking changes at most the copy of the producer's cursor.
pub open spec fn looked<T: NoUninit, P, C>(
    ring: RingBuffer<T, P, C>,
    before: Anchor,
    after: Anchor,
) -> bool {
    ||| after == before
    ||| after.core == (GateConsumer { write_cache: ring.gate.tail, ..before.core })
}

/// An anchor moves forward in the ring: the ring changes in that anchor's
/// slot alone, which now holds the cursor that the anchor published.
pub open spec fn moved<T: NoUninit, P, C>(
    ring_before: RingBuffer<T, P, C>,
    ring_after: RingBuffer<T, P, C>,
    before: Anchor,
    after: Anchor,
) -> bool {
    &&& ring_after == (RingBuffer { gate: ring_after.gate, ..ring_before })
    &&& stored(
        ring_before.gate@,
        ring_after.gate@,
        before.core.slot.at(),
        GateSlot { active: true, cursor: after.core.published },
    )
    &&& after.core.slot == before.core.slot
    &&& after.core.mask == before.core.mask
    &&& before.core.published <= after.core.published <= ring_before.gate.tail
}

proof fn lemma_same_slot<T: NoUninit, P, C>(ring: RingBuffer<T, P, C>, anchor: Anchor)
    requires
        anchor.inv(&ring),
    ensures
        ring.gate.registry@ == ring.gate.registry@.update(
            anchor.core.slot.at(),
            GateSlot { active: true, cursor: anchor.core.published },
        ),
{
    assert(ring.gate.registry@ =~= ring.gate.registry@.update(
        anchor.core.slot.at(),
        GateSlot { active: true, cursor: anchor.core.published },
    ));
}

/// A borrowed message. The anchor steps past it when the borrow is released.
pub struct PopRef {
    pub seq: u64,
}

impl PopRef {
    /// The borrow is of the anchor's oldest message.
    pub open spec fn borrows<T: NoUninit, P, C>(
        &self,
        anchor: &Anchor,
        ring: &RingBuffer<T, P, C>,
    ) -> bool {
        &&& anchor.inv(ring)
        &&& self.seq == anchor.core.read_cursor
        &&& anchor.core.read_cursor < anchor.core.write_cache
    }

    /// The message.
    pub fn get<'a, T: NoUninit, P, C>(
        &self,
        anchor: &Anchor,
        ring: &'a RingBuffer<T, P, C>,
    ) -> (r: &'a T)
        requires
            self.borrows(anchor, ring),
        ensures
            *r == anchor.pending(ring)[0],
    {
        let index: usize = slot_index(self.seq, anchor.core.mask);
        proof {
            assert(holds(ring.slots@, self.seq as int));
        }
        ring.slots[index].data.as_ref().unwrap()
    }

    /// Step past the message.
    pub fn release<T: NoUninit, P, C>(self, anchor: &mut Anchor, ring: &mut RingBuffer<T, P, C>)
        requires
            self.borrows(old(anchor), old(ring)),
        ensures
            old(anchor).next(final(anchor), old(anchor).core.write_cache),
            final(anchor).pending(final(ring)) == old(anchor).pending(old(ring)).drop_first(),
            moved(*old(ring), *final(ring), *old(anchor), *final(anchor)),
            final(anchor).inv(final(ring)),
    {
        anchor.advance_one(ring);
    }
}

/// A consumer that the producer ignores.
pub struct Observer<C = YieldWait> {
    pub reader: SlotReader,
    pub wait: C,
}

impl<W> Observer<W> {
    /// The observer belongs to the ring.
    pub open spec fn inv<T: NoUninit, P, C>(&self, ring: &RingBuffer<T, P, C>) -> bool {
        &&& ring.inv()
        &&& self.reader.inv(ring.gate.tail)
        &&& self.reader.cap() == ring.cap()
        &&& self.reader.slack == ring.slack
    }

    /// The condition that `pop` waits for.
    pub open spec fn is_ready<T: NoUninit, P, C>(&self, ring: &RingBuffer<T, P, C>) -> bool {
        self.reader.pos < ring.gate.tail || ring.gate.closed
    }

    /// Whether `pop` can be answered.
    pub fn ready<T: NoUninit, P, C>(&self, ring: &RingBuffer<T, P, C>) -> (r: bool)
        ensures
            r == self.is_ready(ring),
    {
        ring.gate.tail > self.reader.pos || ring.gate.closed
    }

    /// The next message. Waits for [`ready`](Self::ready).
    pub fn pop<T: NoUninit, P, C>(&mut self, ring: &RingBuffer<T, P, C>) -> (r: Result<
        T,
        PopError,
    >)
        requires
            old(self).inv(ring),
            old(self).is_ready(ring),
        ensures
            match r {
                Ok(v) => seen(*ring, old(self).reader, final(self).reader, v),
                Err(PopError::Lagged { missed }) => lapped(
                    *ring,
                    old(self).reader,
                    final(self).reader,
                    missed,
                ),
                Err(PopError::Closed) => ring.gate.closed && idle(
                    *ring,
                    old(self).reader,
                    final(self).reader,
                ),
            },
            final(self).wait == old(self).wait,
            final(self).inv(ring),
    {
        if self.reader.has_item(ring.gate.tail) {
            return self.read_slot(ring);
        }
        if self.reader.drained(ring.gate.tail, ring.gate.closed) {
            return Err(PopError::Closed);
        }
        self.read_slot(ring)
    }

    /// The next message if there is one.
    pub fn try_pop<T: NoUninit, P, C>(&mut self, ring: &RingBuffer<T, P, C>) -> (r: Result<
        Option<T>,
        PopError,
    >)
        requires
            old(self).inv(ring),
        ensures
            match r {
                Ok(Some(v)) => seen(*ring, old(self).reader, final(self).reader, v),
                Ok(None) => !ring.gate.closed && idle(
                    *ring,
                    old(self).reader,
                    final(self).reader,
                ),
                Err(PopError::Lagged { missed }) => lapped(
                    *ring,
                    old(self).reader,
                    final(self).reader,
                    missed,
                ),
                Err(PopError::Closed) => ring.gate.closed && idle(
                    *ring,
                    old(self).reader,
                    final(self).reader,
                ),
            },
            final(self).wait == old(self).wait,
            final(self).inv(ring),
    {
        if self.reader.has_item(ring.gate.tail) {
            return match self.read_slot(ring) {
                Ok(v) => Ok(Some(v)),
                Err(e) => Err(e),
            };
        }
        if self.reader.drained(ring.gate.tail, ring.gate.closed) {
            return Err(PopError::Closed);
        }
        if self.reader.available() {
            return match self.read_slot(ring) {
                Ok(v) => Ok(Some(v)),
                Err(e) => Err(e),
            };
        }
        Ok(None)
    }

    fn read_slot<T: NoUninit, P, C>(&mut self, ring: &RingBuffer<T, P, C>) -> (r: Result<
        T,
        PopError,
    >)
        requires
            old(self).inv(ring),
            old(self).reader.pos < ring.gate.tail,
            old(self).reader.tail_cache > old(self).reader.pos,
        ensures
            match r {
                Ok(v) => seen(*ring, old(self).reader, final(self).reader, v),
                Err(PopError::Lagged { missed }) => lapped(
                    *ring,
                    old(self).reader,
                    final(self).reader,
                    missed,
                ),
                Err(PopError::Closed) => false,
            },
            final(self).wait == old(self).wait,
            final(self).inv(ring),
    {
        match self.reader.read_slot(&ring.slots, ring.gate.tail) {
            SlotRead::Message(v) => Ok(v),
            SlotRead::Lapped { missed } => Err(PopError::Lagged { missed }),
        }
    }

    /// Skip everything published so far; the number of messages skipped.
    pub fn skip_to_latest<T: NoUninit, P, C>(&mut self, ring: &RingBuffer<T, P, C>) -> (skipped:
        u64)
        requires
            old(self).inv(ring),
        ensures
            old(self).reader.skips(ring.gate.tail, &final(self).reader, skipped),
            skipped == ring.gate.tail - old(self).reader.pos,
            final(self).reader == (SlotReader {
                pos: ring.gate.tail,
                tail_cache: ring.gate.tail,
                ..old(self).reader
            }),
            final(self).wait == old(self).wait,
            final(self).inv(ring),
    {
        self.reader.skip_to_latest(ring.gate.tail)
    }

    /// How many published messages the observer has not seen.
    pub fn lag<T: NoUninit, P, C>(&self, ring: &RingBuffer<T, P, C>) -> (r: u64)
        requires
            self.inv(ring),
        ensures
            r == ring.gate.tail - self.reader.pos,
    {
        self.reader.lag(ring.gate.tail)
    }

    /// Another observer, which sees what is published from now on.
    pub fn subscribe_observer<T: NoUninit, P, C>(&self, ring: &RingBuffer<T, P, C>) -> (r: Observer<
        W,
    >) where W: Default
        requires
            self.inv(ring),
        ensures
            observing(ring, r.reader),
            r.inv(ring),
    {
        observe_from(ring)
    }

    /// Slots in the ring.
    pub fn capacity(&self) -> (r: usize)
        requires
            ring_capacity(self.reader.cap()),
        ensures
            r == self.reader.cap(),
    {
        (self.reader.mask + 1) as usize
    }
}

/// The reader was handed the message at its position and is one further.
pub open spec fn seen<T: NoUninit, P, C>(
    ring: RingBuffer<T, P, C>,
    before: SlotReader,
    after: SlotReader,
    value: T,
) -> bool {
    &&& before.pos < ring.gate.tail
    &&& ring.holds(before.pos as int)
    &&& value == ring.message(before.pos as int)
    &&& after == SlotReader {
        pos: (before.pos + 1) as u64,
        tail_cache: before.looked_up(ring.gate.tail),
        ..before
    }
}

/// The message at the reader's position was overwritten; the reader skipped
/// exactly the reported number of messages.
pub open spec fn lapped<T: NoUninit, P, C>(
    ring: RingBuffer<T, P, C>,
    before: SlotReader,
    after: SlotReader,
    missed: u64,
) -> bool {
    &&& before.pos < ring.gate.tail
    &&& !ring.holds(before.pos as int)
    &&& after == SlotReader {
        pos: before.resumed(ring.gate.tail),
        tail_cache: ring.gate.tail,
        ..before
    }
    &&& before.pos + missed == after.pos
}

/// Nothing was published past the reader.
pub open spec fn idle<T: NoUninit, P, C>(
    ring: RingBuffer<T, P, C>,
    before: SlotReader,
    after: SlotReader,
) -> bool {
    &&& before.pos == ring.gate.tail
    &&& after == SlotReader { tail_cache: ring.gate.tail, ..before }
}

/// Every anchor is handed every message: a push appends its message to what
/// each registered anchor has pending, and takes nothing away.
pub proof fn a_push_reaches_every_anchor<T: NoUninit, P, C>(
    producer: Producer,
    anchor: Anchor,
    before: RingBuffer<T, P, C>,
    after: RingBuffer<T, P, C>,
    value: T,
)
    requires
        producer.inv(&before),
        anchor.inv(&before),
        before.has_room(),
        pushed(before, after, value),
        after.inv(),
    ensures
        anchor.inv(&after),
        anchor.pending(&after) == anchor.pending(&before).push(value),
{
    let k = anchor.core.slot.at();
    assert(holds_back(before.gate.registry@[k]));
    let cap = before.cap();
    let tail = before.gate.tail as int;
    vstd::arithmetic::div_mod::lemma_mod_bound(tail, cap);
    assert forall|i: int| 0 <= i < anchor.pending(&before).len() implies #[trigger] anchor.pending(
        &after,
    )[i] == anchor.pending(&before)[i] by {
        let seq: int = anchor.core.read_cursor + i;
        lemma_distinct_slots(seq, tail, cap);
        vstd::arithmetic::div_mod::lemma_mod_bound(seq, cap);
    }
    assert(anchor.pending(&after) =~= anchor.pending(&before).push(value));
}

/// An anchor that moves forward, or leaves, keeps the producer going and
/// takes nothing away from another anchor or from an observer.
pub proof fn an_anchor_disturbs_nobody<T: NoUninit, P, C, W>(
    producer: Producer,
    mover: Anchor,
    other: Anchor,
    observer: Observer<W>,
    before: RingBuffer<T, P, C>,
    after: RingBuffer<T, P, C>,
    slot: GateSlot,
)
    requires
        producer.inv(&before),
        mover.inv(&before),
        after == (RingBuffer { gate: after.gate, ..before }),
        stored(before.gate@, after.gate@, mover.core.slot.at(), slot),
        holds_back(slot) ==> mover.core.published <= slot.cursor <= before.gate.tail,
    ensures
        after.inv(),
        producer.inv(&after),
        other.inv(&before) && other.core.slot.at() != mover.core.slot.at() ==> other.inv(&after)
            && other.pending(&after) == other.pending(&before),
        observer.inv(&before) ==> observer.inv(&after),
{
    progress_keeps_the_producer(producer.core, mover.core, before.gate@, after.gate@, slot);
    if other.inv(&before) && other.core.slot.at() != mover.core.slot.at() {
        progress_keeps_other_consumers(mover.core, other.core, before.gate@, after.gate@, slot);
        assert(other.pending(&after) =~= other.pending(&before));
    }
}

/// A join disturbs neither the producer, nor an anchor that was there before,
/// nor an observer.
pub proof fn a_join_disturbs_nobody<T: NoUninit, P, C, W>(
    producer: Producer,
    other: Anchor,
    observer: Observer<W>,
    joiner: Anchor,
    before: RingBuffer<T, P, C>,
    after: RingBuffer<T, P, C>,
)
    requires
        subscribed(before, after, Ok(joiner)),
    ensures
        producer.inv(&before) ==> producer.inv(&after),
        other.inv(&before) ==> other.inv(&after) && other.pending(&after) == other.pending(&before)
            && other.core.slot.at() != joiner.core.slot.at(),
        observer.inv(&before) ==> observer.inv(&after),
{
    a_join_keeps_everyone(
        producer.core,
        other.core,
        before.gate@,
        after.gate@,
        joiner.core.slot.at(),
    );
    if other.inv(&before) {
        assert(other.pending(&after) =~= other.pending(&before));
    }
}

/// An observer never holds the producer back and is never shown anything but
/// what was pushed: a push keeps its invariant, and leaves an older message as
/// it is or makes it unreadable.
pub proof fn an_observer_sees_what_was_pushed<T: NoUninit, P, C, W>(
    producer: Producer,
    observer: Observer<W>,
    before: RingBuffer<T, P, C>,
    after: RingBuffer<T, P, C>,
    value: T,
    s: int,
)
    requires
        producer.inv(&before),
        observer.inv(&before),
        before.gate.tail < MAX_CURSOR,
        pushed(before, after, value),
        after.inv(),
        0 <= s <= before.gate.tail,
    ensures
        observer.inv(&after),
        s == before.gate.tail ==> after.holds(s) && after.message(s) == value,
        s < before.gate.tail && after.holds(s) ==> before.holds(s) && after.message(s)
            == before.message(s),
{
    if s < before.gate.tail {
        if after.holds(s) {
            a_message_is_kept_or_gone(before.slots@, before.gate.tail as int, value, s);
        }
    } else {
        vstd::arithmetic::div_mod::lemma_mod_bound(s, before.cap());
    }
}

/// A skip counts the observer's lag and leaves none; it never moves the
/// observer back, and a second one skips nothing. The next message is the first
/// one pushed afterwards, and what is reported as missed starts with it.
pub proof fn a_skip_leaves_what_comes_later<T: NoUninit, P, C>(
    producer: Producer,
    ring: RingBuffer<T, P, C>,
    before: SlotReader,
    after: SlotReader,
    skipped: u64,
    again: SlotReader,
    skipped_again: u64,
    pushed_to: RingBuffer<T, P, C>,
    value: T,
    later: RingBuffer<T, P, C>,
    next: SlotReader,
    missed: u64,
)
    requires
        producer.inv(&ring),
        before.inv(ring.gate.tail),
        before.skips(ring.gate.tail, &after, skipped),
        after.skips(ring.gate.tail, &again, skipped_again),
        ring.gate.tail < MAX_CURSOR,
        pushed(ring, pushed_to, value),
        pushed_to.inv(),
    ensures
        skipped == ring.gate.tail - before.pos,
        after.pos == ring.gate.tail,
        after.pos >= before.pos,
        skipped_again == 0,
        again == after,
        pushed_to.gate.tail > after.pos,
        pushed_to.holds(after.pos as int),
        pushed_to.message(after.pos as int) == value,
        lapped(later, after, next, missed) ==> next.pos == ring.gate.tail + missed,
{
    vstd::arithmetic::div_mod::lemma_mod_bound(ring.gate.tail as int, ring.cap());
}

/// An observer is lapped exactly when the producer is more than one lap ahead
/// of it; it then skips at least one message and lands on one that it can
/// read, `slack` messages from the oldest.
pub proof fn a_lapped_observer_recovers<T: NoUninit, P, C, W>(
    observer: Observer<W>,
    ring: RingBuffer<T, P, C>,
)
    requires
        observer.inv(&ring),
        observer.reader.pos < ring.gate.tail,
    ensures
        ring.holds(observer.reader.pos as int) == (ring.gate.tail - observer.reader.pos
            <= ring.cap()),
        !ring.holds(observer.reader.pos as int) ==> {
            let resumed = observer.reader.resumed(ring.gate.tail);
            &&& observer.reader.pos < resumed <= ring.gate.tail
            &&& ring.gate.tail + ring.slack - resumed <= ring.cap()
            &&& resumed < ring.gate.tail ==> ring.holds(resumed as int)
        },
{
    a_lap_overwrites(ring.slots@, ring.gate.tail as int, observer.reader.pos as int);
    if !ring.holds(observer.reader.pos as int) {
        a_lapped_reader_catches_up(ring.slots@, observer.reader, ring.gate.tail);
    }
}

/// An anchor can take what is pending after the producer has left.
pub proof fn closing_takes_nothing_away<T: NoUninit, P, C>(
    producer: Producer,
    anchor: Anchor,
    before: RingBuffer<T, P, C>,
    after: RingBuffer<T, P, C>,
)
    requires
        anchor.inv(&before),
        after == (RingBuffer { gate: Gate { closed: true, ..before.gate }, ..before }),
    ensures
        anchor.inv(&after),
        anchor.pending(&after) == anchor.pending(&before),
        producer.inv(&before) ==> producer.inv(&after),
{
    assert(after.gate@.slots == before.gate@.slots);
    assert(anchor.pending(&after) =~= anchor.pending(&before));
}

/// Two rings that no handle can tell apart.
pub open spec fn same_ring<T: NoUninit, P, C>(
    a: RingBuffer<T, P, C>,
    b: RingBuffer<T, P, C>,
) -> bool {
    &&& a.slots@ == b.slots@
    &&& a.slack == b.slack
    &&& a.gate@ == b.gate@
    &&& a.producer_wait == b.producer_wait
    &&& a.consumer_wait == b.consumer_wait
}

/// A claim is refused exactly where a push is, and a claim that is let go
/// leaves the ring as it was: the next push, which succeeds, leaves the ring
/// that it would have left without the claim.
pub proof fn a_claim_that_is_let_go_changes_nothing<T: NoUninit, P, C>(
    producer: Producer,
    ring: RingBuffer<T, P, C>,
    claimer: Producer,
    slot: Option<WriteSlot>,
    pusher: Producer,
    after_push: RingBuffer<T, P, C>,
    value: T,
    r: Result<(), T>,
    later: Producer,
    after_both: RingBuffer<T, P, C>,
    r_later: Result<(), T>,
)
    requires
        producer.inv(&ring),
        try_claimed(producer, ring, claimer, slot),
        try_pushed(producer, ring, pusher, after_push, value, r),
        try_pushed(claimer, ring, later, after_both, value, r_later),
    ensures
        slot is None == r is Err,
        r_later is Err == r is Err,
        claimer.core.next_seq == producer.core.next_seq,
        same_ring(after_both, after_push),
{
}

/// Claiming a slot and committing a value leaves the ring, and the producer,
/// as pushing the value does: every anchor has one more message pending.
pub proof fn claim_and_commit_is_push<T: NoUninit, P, C>(
    producer: Producer,
    ring: RingBuffer<T, P, C>,
    claimer: Producer,
    slot: WriteSlot,
    committer: Producer,
    after_commit: RingBuffer<T, P, C>,
    pusher: Producer,
    after_push: RingBuffer<T, P, C>,
    value: T,
    anchor: Anchor,
)
    requires
        producer.inv(&ring),
        ring.has_room(),
        claimed(producer, ring, claimer, slot),
        committed(claimer, ring, committer, after_commit, value),
        committer.inv(&after_commit),
        sent(producer, ring, pusher, after_push, value),
    ensures
        sent(producer, ring, committer, after_commit, value),
        same_ring(after_commit, after_push),
        anchor.inv(&ring) ==> anchor.inv(&after_commit) && anchor.pending(&after_commit)
            == anchor.pending(&ring).push(value),
{
    assert(producer.core.asked(&claimer.core, ring.gate@, 1));
    if anchor.inv(&ring) {
        a_push_reaches_every_anchor(producer, anchor, ring, after_commit, value);
    }
}

/// What the producer tells of a full ring: it looks full exactly where its
/// count is the capacity; it looks full where an anchor has a ring full
/// pending; and where it does not look full the next push succeeds.
pub proof fn a_full_ring_looks_full<T: NoUninit, P, C>(
    producer: Producer,
    anchor: Anchor,
    ring: RingBuffer<T, P, C>,
    after: Producer,
    ring_after: RingBuffer<T, P, C>,
    value: T,
    r: Result<(), T>,
)
    requires
        producer.inv(&ring),
        try_pushed(producer, ring, after, ring_after, value, r),
    ensures
        producer.looks_full() == (producer.core.known_lag() == ring.cap()),
        anchor.inv(&ring) && anchor.pending(&ring).len() == ring.cap() ==> producer.looks_full(),
        !producer.looks_full() ==> r is Ok,
{
    crate::gate::a_full_ring_looks_full(producer.core, anchor.core, ring.gate@);
}

/// A anchor that takes one message of a whole ring of them, and knows of all,
/// leaves room: where everybody else does, the producer can go on.
pub proof fn a_pop_from_a_full_ring_leaves_room<T: NoUninit, P, C>(
    anchor: Anchor,
    ring: RingBuffer<T, P, C>,
    after: Anchor,
    ring_after: RingBuffer<T, P, C>,
)
    requires
        anchor.inv(&ring),
        anchor.pending(&ring).len() == ring.cap(),
        anchor.core.write_cache == ring.gate.tail || anchor.core.write_cache
            == anchor.core.read_cursor,
        anchor.next(&after, anchor.looked_up(&ring)),
        moved(ring, ring_after, anchor, after),
        forall|k: int|
            0 <= k < ring.gate.registry@.len() && k != anchor.core.slot.at() && (
            #[trigger] ring.gate.registry@[k]).active && ring.gate.registry@[k].cursor != u64::MAX
                ==> ring.gate.tail - ring.gate.registry@[k].cursor < ring.cap(),
    ensures
        forall|k: int|
            0 <= k < ring_after.gate.registry@.len() && (
            #[trigger] ring_after.gate.registry@[k]).active && ring_after.gate.registry@[k].cursor
                != u64::MAX ==> ring_after.gate.tail - ring_after.gate.registry@[k].cursor
                < ring.cap(),
        ring_after.gate.registry@[anchor.core.slot.at()].cursor == anchor.core.read_cursor + 1,
        ring_after.has_room(),
{
    let k = anchor.core.slot.at();
    assert forall|j: int|
        0 <= j < ring_after.gate.registry@.len() && (
        #[trigger] ring_after.gate.registry@[j]).active && ring_after.gate.registry@[j].cursor
            != u64::MAX implies ring_after.gate.tail - ring_after.gate.registry@[j].cursor
        < ring.cap() by {
        if j != k {
            assert(ring.gate.registry@[j] == ring_after.gate.registry@[j]);
        }
    }
}

/// The producer is told of a anchor's progress in time, and not more often than
/// need be. Once nothing known is left to read, the slot says so; what it does
/// not say is less than an eighth of the ring and less than 64 messages; and a
/// message that is taken from the middle of a batch is not told at once.
pub proof fn a_pop_is_told_in_time<T: NoUninit, P, C>(
    anchor: Anchor,
    ring: RingBuffer<T, P, C>,
    after: Anchor,
    ring_after: RingBuffer<T, P, C>,
    cache: u64,
)
    requires
        anchor.inv(&ring),
        anchor.core.read_cursor < cache <= ring.gate.tail,
        anchor.next(&after, cache),
        moved(ring, ring_after, anchor, after),
    ensures
        ({
            let told = ring_after.gate.registry@[anchor.core.slot.at()].cursor;
            let before = ring.gate.registry@[anchor.core.slot.at()].cursor;
            let read = anchor.core.read_cursor + 1;
            let cap = ring.cap();
            &&& after.core.read_cursor == read
            &&& after.core.write_cache == cache
            &&& told <= read
            &&& read == cache ==> told == read
            &&& read - told < 64
            &&& read - told == 0 || 8 * (read - told) < cap
            &&& read < cache && cache - anchor.core.read_cursor < cap && read - before < 64 && 8 * (
            read - before + 1) <= cap ==> told == before
        }),
{
    let cap = ring.cap();
    a_batch_is_an_eighth(cap, 64);
}

/// The default slack is an eighth of the ring, and at least one message.
pub proof fn the_default_slack_is_an_eighth(capacity: int)
    requires
        ring_capacity(capacity),
        capacity >= 2,
    ensures
        capacity >= 8 ==> 8 * slack_of(capacity) == capacity,
        capacity < 8 ==> slack_of(capacity) == 1,
        0 < slack_of(capacity) < capacity,
{
    if capacity >= 8 {
        lemma_eighths(capacity);
    }
}

/// A push is refused, and the value given back, exactly where some registered
/// anchor has a whole ring to catch up on.
pub proof fn a_push_needs_room_and_nothing_else<T: NoUninit, P, C>(
    producer: Producer,
    ring: RingBuffer<T, P, C>,
    after: Producer,
    ring_after: RingBuffer<T, P, C>,
    value: T,
    r: Result<(), T>,
)
    requires
        producer.inv(&ring),
        try_pushed(producer, ring, after, ring_after, value, r),
    ensures
        r is Ok <==> forall|k: int|
            0 <= k < ring.gate.registry@.len() && (#[trigger] ring.gate.registry@[k]).active
                && ring.gate.registry@[k].cursor != u64::MAX ==> ring.gate.tail
                - ring.gate.registry@[k].cursor < ring.cap(),
        r is Ok ==> ring_after.gate.tail == ring.gate.tail + 1,
        r matches Err(v) ==> v == value && ring_after == ring,
{
    let gate = ring.gate@;
    if ring.has_room() {
        assert forall|k: int|
            0 <= k < ring.gate.registry@.len() && (#[trigger] ring.gate.registry@[k]).active
                && ring.gate.registry@[k].cursor != u64::MAX implies ring.gate.tail
            - ring.gate.registry@[k].cursor < ring.cap() by {
            assert(holds_back(gate.slots[k]));
        }
    } else {
        let k = choose|k: int|
            0 <= k < gate.slots.len() && holds_back(#[trigger] gate.slots[k]) && gate.tail + 1
                - gate.slots[k].cursor > ring.cap();
        assert(ring.gate.registry@[k].active);
    }
}

/// A new ring is empty and open, with room and one anchor, which is handed the
/// first message first; an observer that comes then sees it too.
pub proof fn a_new_ring_hands_out_the_first_push<T: NoUninit, P, C>(
    ring: RingBuffer<T, P, C>,
    producer: Producer,
    anchor: Anchor,
    reader: SlotReader,
    ring_after: RingBuffer<T, P, C>,
    value: T,
)
    requires
        fresh(ring, producer, anchor),
        observing(&ring, reader),
        pushed(ring, ring_after, value),
        ring_after.inv(),
    ensures
        !ring.gate.closed,
        anchor.pending(&ring).len() == 0,
        anchor.core.read_cursor == ring.gate.tail,
        producer.core.next_seq == ring.gate.tail,
        ring.has_room(),
        anchor.pending(&ring_after) == seq![value],
        reader.pos == ring.gate.tail,
        reader.slack == ring.slack,
        ring_after.gate.tail == reader.pos + 1,
        ring_after.holds(reader.pos as int),
        ring_after.message(reader.pos as int) == value,
{
    assert forall|k: int| 0 <= k < ring.gate@.slots.len() && holds_back(
        #[trigger] ring.gate@.slots[k],
    ) implies ring.gate@.tail + 1 - ring.gate@.slots[k].cursor <= ring.cap() by {
        assert(producer.core.bounded(k, ring.gate@.slots[k].cursor));
    }
    a_push_reaches_every_anchor(producer, anchor, ring, ring_after, value);
    assert(anchor.pending(&ring).push(value) =~= seq![value]);
    vstd::arithmetic::div_mod::lemma_mod_bound(ring.gate.tail as int, ring.cap());
}

/// An observer that subscribes is handed nothing of what was published before,
/// and everything from then on, under the ring's slack.
pub proof fn an_observer_starts_at_the_tail<T: NoUninit, P, C>(
    ring: RingBuffer<T, P, C>,
    reader: SlotReader,
)
    requires
        ring.inv(),
        observing(&ring, reader),
    ensures
        reader.pos == ring.gate.tail,
        reader.tail_cache == ring.gate.tail,
        reader.slack == ring.slack,
        reader.mask + 1 == ring.cap(),
{
}

/// An anchor joins exactly while the producer is there. It is handed nothing of
/// what was published before, and counts as one more.
pub proof fn joining_needs_a_producer<T: NoUninit, P, C>(
    before: RingBuffer<T, P, C>,
    after: RingBuffer<T, P, C>,
    r: Result<Anchor, SubscribeError>,
)
    requires
        before.inv(),
        subscribed(before, after, r),
    ensures
        r is Ok <==> !before.gate.closed,
        r matches Err(e) ==> e == SubscribeError::Closed && after == before,
        r matches Ok(joiner) ==> {
            &&& joiner.core.read_cursor == before.gate.tail
            &&& joiner.pending(&after).len() == 0
            &&& after.gate.tail == before.gate.tail
            &&& after.gate.registry@[joiner.core.slot.at()].active
            &&& after.gate.registry@[joiner.core.slot.at()].cursor == before.gate.tail
            &&& active_in(after.gate.registry@) == active_in(before.gate.registry@) + 1
        },
{
    if r is Ok {
        joining_and_leaving_are_counted(
            before.gate@,
            after.gate@,
            r->Ok_0.core.slot.at(),
            after.gate@,
            -1,
        );
    }
}

} // verus!
