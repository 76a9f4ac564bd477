//! A gating ring: one producer, any number of consumers, and every consumer
//! is handed every message published after it joined.
//!
//! The producer waits for the slowest registered consumer before it reuses a
//! slot. Without consumers it runs freely, and what nobody waited for is
//! dropped. A consumer may join and leave at any time.
//!
//! [`RingBuffer`] is the state that all handles share; every operation takes
//! it beside the handle. An operation that waits (`push`, `claim`, `pop`,
//! `pop_ref`) may be called once its condition holds: poll
//! [`Producer::has_space`] or [`Consumer::ready`] first.

use crate::arith::{
    lemma_distinct_slots, lemma_next_lap, ring_capacity, slot_index, MAX_CAPACITY, MAX_CURSOR,
};
use crate::cursor::{a_batch_is_an_eighth, batch_of, lemma_rounded, round_capacity, rounded};
use crate::gate::{
    a_grant_leaves_room, a_join_keeps_everyone, advanced, hand_over, holds_back, joined,
    joining_and_leaving_are_counted, progress_keeps_other_consumers, progress_keeps_the_producer,
    stored, Gate, GateConsumer, GateProducer, GateView,
};
use crate::handler::{lemma_took, took, Handler};
use crate::registry::{active_in, publish_batch_elems, GateSlot, DETACHED, MAX_PUBLISH_BATCH_ELEMS};
use crate::wait::YieldWait;
use core::mem::ManuallyDrop;
use vstd::prelude::*;

verus! {

/// The producer is gone and everything it published has been consumed.
#[derive(Clone, Copy, Debug, PartialEq, Eq, Structural)]
pub struct Closed;

impl Closed {
    /// The error in words.
    pub fn message(&self) -> (r: String)
        ensures
            r@ == "ring closed: producer dropped and all published messages consumed"@,
    {
        "ring closed: producer dropped and all published messages consumed".to_owned()
    }
}

/// Why a consumer could not join.
#[derive(Clone, Copy, Debug, PartialEq, Eq, Structural)]
pub enum SubscribeError {
    /// The producer is gone.
    Closed,
    /// Every slot of a registry of fixed size is taken.
    Full,
}

impl SubscribeError {
    /// The error in words.
    pub fn message(&self) -> (r: String)
        ensures
            r@ == (match self {
                SubscribeError::Closed => "ring closed: producer dropped"@,
                SubscribeError::Full => "consumer registry is full"@,
            }),
    {
        match self {
            SubscribeError::Closed => "ring closed: producer dropped".to_owned(),
            SubscribeError::Full => "consumer registry is full".to_owned(),
        }
    }
}

/// What a slot holds.
pub open spec fn occupant<T>(slot: Option<ManuallyDrop<T>>) -> Option<T> {
    match slot {
        Some(m) => Some(m@),
        None => None,
    }
}

/// `slots` without the messages from one cursor to another.
pub open spec fn cleared<T>(slots: Seq<Option<T>>, from: int, to: int) -> Seq<Option<T>> {
    Seq::new(
        slots.len(),
        |i: int|
            if exists|seq: int| from <= seq < to && #[trigger] (seq % slots.len() as int) == i {
                None
            } else {
                slots[i]
            },
    )
}

/// The ring: its slots, and what producer and consumers publish.
pub struct RingBuffer<T, P = YieldWait, C = YieldWait> {
    /// The slots. What one holds is dropped by the producer, a lap later, or
    /// with the ring ([`drop_live`](Self::drop_live)), and never by being
    /// overwritten.
    pub buffer: Vec<Option<ManuallyDrop<T>>>,
    pub gate: Gate,
    /// Every message below this cursor has been dropped.
    pub dropped_through: u64,
    pub producer_wait: P,
    pub consumer_wait: C,
}

impl<T, P, C> RingBuffer<T, P, C> {
    /// Slots in the ring.
    pub open spec fn cap(&self) -> int {
        self.slots().len() as int
    }

    /// What the slots hold.
    pub open spec fn slots(&self) -> Seq<Option<T>> {
        Seq::new(self.buffer@.len(), |i: int| occupant(self.buffer@[i]))
    }

    /// The message at a cursor.
    pub open spec fn message(&self, seq: int) -> T {
        self.slots()[seq % self.cap()]->0
    }

    /// The slots between the drop watermark and the published cursor hold
    /// messages, and they fit the ring.
    pub open spec fn inv(&self) -> bool {
        &&& ring_capacity(self.cap())
        &&& self.cap() >= 2
        &&& self.gate.inv()
        &&& self.dropped_through <= self.gate.tail
        &&& self.gate.tail - self.dropped_through <= self.cap()
        &&& forall|seq: int|
            self.dropped_through <= seq < self.gate.tail
                ==> (#[trigger] self.slots()[seq % self.cap()]) is Some
    }

    /// Every registered consumer leaves room for one more message.
    pub open spec fn has_room(&self) -> bool {
        self.gate@.open_for(1, self.cap())
    }

    /// A fresh ring, its producer and one consumer. The capacity is
    /// `min_capacity` rounded up to a power of two, at least two.
    pub fn with_wait_strategies(min_capacity: usize) -> (r: (Self, Producer, Consumer)) where
        P: Default,
        C: Default,

        requires
            0 < min_capacity <= MAX_CAPACITY,
        ensures
            r.0.cap() == rounded(min_capacity as int, 2),
            r.0.gate.tail == 0,
            !r.0.gate.closed,
            r.0.inv(),
            r.1.inv(&r.0),
            r.1.core.next_seq == 0,
            r.1.core.known_lag() == 0,
            r.2.inv(&r.0),
            r.2.pending(&r.0).len() == 0,
            active_in(r.0.gate.registry@) == 1,
    {
        let capacity: usize = round_capacity(min_capacity, 2);
        proof {
            reveal_with_fuel(vstd::arithmetic::power2::is_pow2, 3);
            lemma_rounded(min_capacity as int, 2);
        }
        let mut buffer: Vec<Option<ManuallyDrop<T>>> = Vec::new();
        let mut i: usize = 0;
        while i < capacity
            invariant
                i <= capacity,
                buffer@.len() == i,
            decreases capacity - i,
        {
            buffer.push(None);
            i += 1;
        }
        let mut gate = Gate::new();
        let ghost fresh = gate.registry@;
        let core = GateConsumer::join(&mut gate, (capacity - 1) as u64);
        let producer = Producer { core: GateProducer::new(capacity) };
        proof {
            lemma_first_join(fresh, gate.registry@, core.slot.at());
        }
        (
            RingBuffer {
                buffer,
                gate,
                dropped_through: 0,
                producer_wait: P::default(),
                consumer_wait: C::default(),
            },
            producer,
            Consumer { core },
        )
    }
}

/// The message in a slot.
fn peek<T>(buffer: &Vec<Option<ManuallyDrop<T>>>, index: usize) -> (r: &T)
    requires
        index < buffer@.len(),
        occupant(buffer@[index as int]) is Some,
    ensures
        *r == occupant(buffer@[index as int])->0,
{
    let m: &ManuallyDrop<T> = buffer[index].as_ref().unwrap();
    m
}

impl<T, P, C> RingBuffer<T, P, C> {
    /// Drop what the ring still holds, oldest first: the messages from the drop
    /// watermark to the published cursor. For the end of the last handle.
    pub fn drop_live(&mut self)
        requires
            old(self).inv(),
        ensures
            final(self).slots() == cleared(
                old(self).slots(),
                old(self).dropped_through as int,
                old(self).gate.tail as int,
            ),
            *final(self) == (RingBuffer {
                buffer: final(self).buffer,
                dropped_through: old(self).gate.tail,
                ..*old(self)
            }),
            final(self).inv(),
    {
        let mask: u64 = self.buffer.len() as u64 - 1;
        let ghost from = self.dropped_through as int;
        let ghost all = self.slots();
        proof {
            assert(all =~= cleared(all, from, from));
        }
        while self.dropped_through != self.gate.tail
            invariant
                mask + 1 == self.cap(),
                ring_capacity(self.cap()),
                all == old(self).slots(),
                from == old(self).dropped_through,
                from <= self.dropped_through <= self.gate.tail,
                self.gate == old(self).gate,
                self.producer_wait == old(self).producer_wait,
                self.consumer_wait == old(self).consumer_wait,
                self.slots() == cleared(all, from, self.dropped_through as int),
                self.cap() == all.len(),
            decreases self.gate.tail - self.dropped_through,
        {
            let head: u64 = self.dropped_through;
            let index: usize = slot_index(head, mask);
            let ghost before = self.slots();
            self.dropped_through = head + 1;
            let slot = self.buffer[index].take();
            proof {
                let cap = all.len() as int;
                assert(self.slots() =~= before.update(index as int, None));
                assert(before.update(index as int, None) =~= cleared(all, from, head + 1)) by {
                    assert forall|i: int| 0 <= i < cap implies before.update(index as int, None)[i]
                        == cleared(all, from, head + 1)[i] by {
                        if i == index {
                            assert(head as int % cap == i);
                        } else if exists|seq: int|
                            from <= seq < head + 1 && #[trigger] (seq % cap) == i {
                            let seq = choose|seq: int|
                                from <= seq < head + 1 && #[trigger] (seq % cap) == i;
                            assert(from <= seq < head && seq % cap == i);
                        } else if exists|seq: int| from <= seq < head && #[trigger] (seq % cap) == i {
                            let seq = choose|seq: int|
                                from <= seq < head && #[trigger] (seq % cap) == i;
                            assert(from <= seq < head + 1 && seq % cap == i);
                        }
                    }
                }
            }
            match slot {
                Some(m) => {
                    let dropped = ManuallyDrop::into_inner(m);
                },
                None => {},
            }
        }
    }
}

impl<T> RingBuffer<T> {
    /// A fresh ring with the default wait strategies.
    pub fn new(min_capacity: usize) -> (r: (Self, Producer, Consumer))
        requires
            0 < min_capacity <= MAX_CAPACITY,
        ensures
            r.0.cap() == rounded(min_capacity as int, 2),
            r.0.gate.tail == 0,
            !r.0.gate.closed,
            r.0.inv(),
            r.1.inv(&r.0),
            r.1.core.next_seq == 0,
            r.1.core.known_lag() == 0,
            r.2.inv(&r.0),
            r.2.pending(&r.0).len() == 0,
            active_in(r.0.gate.registry@) == 1,
    {
        Self::with_wait_strategies(min_capacity)
    }
}

/// The first join into a fresh registry leaves one active slot.
pub proof fn lemma_first_join(before: Seq<GateSlot>, after: Seq<GateSlot>, k: int)
    requires
        before == Seq::new(64, |i: int| GateSlot { active: false, cursor: DETACHED }),
        crate::registry::first_vacant(before, k),
        after == crate::registry::with_room(before, k).update(
            k,
            GateSlot { active: true, cursor: after[k].cursor },
        ),
    ensures
        active_in(after) == 1,
        k == 0,
{
    if k > 0 {
        assert(crate::registry::vacant(before[0]));
    }
    lemma_one_active(after);
}

proof fn lemma_one_active(slots: Seq<GateSlot>)
    requires
        slots.len() >= 1,
        slots[0].active,
        forall|j: int| 1 <= j < slots.len() ==> !(#[trigger] slots[j]).active,
    ensures
        active_in(slots) == 1,
    decreases slots.len(),
{
    if slots.len() > 1 {
        assert(slots.drop_last()[0] == slots[0]);
        assert forall|j: int| 1 <= j < slots.drop_last().len() implies !(
        #[trigger] slots.drop_last()[j]).active by {
            assert(!slots[j].active);
        }
        assert(!slots[slots.len() - 1].active);
        lemma_one_active(slots.drop_last());
    } else {
        assert(active_in(slots.drop_last()) == 0);
    }
}

/// The producing half.
pub struct Producer {
    pub core: GateProducer,
}

impl Producer {
    /// The producer belongs to the ring.
    pub open spec fn inv<T, P, C>(&self, ring: &RingBuffer<T, P, C>) -> bool {
        &&& ring.inv()
        &&& self.core.inv(ring.gate@)
        &&& self.core.cap() == ring.cap()
    }

    /// A slot is granted: the slowest known consumer leaves room for it.
    pub open spec fn granted(&self) -> bool {
        self.core.known_lag() + 1 <= self.core.cap()
    }

    /// The slowest known consumer leaves no room.
    pub open spec fn looks_full(&self) -> bool {
        !self.granted()
    }

    /// Whether a slot is free: the condition that `push` and `claim` wait
    /// for.
    pub fn has_space<T, P, C>(&mut self, ring: &RingBuffer<T, P, C>) -> (r: bool)
        requires
            old(self).inv(ring),
        ensures
            r == ring.has_room(),
            old(self).core.asked(&final(self).core, ring.gate@, 1),
            final(self).inv(ring),
            r == final(self).granted(),
    {
        self.core.has_space(&ring.gate, 1)
    }

    /// Enqueue `value`. Waits for [`has_space`](Self::has_space).
    pub fn push<T, P, C>(&mut self, ring: &mut RingBuffer<T, P, C>, value: T)
        requires
            old(self).inv(old(ring)),
            old(ring).has_room(),
            old(ring).gate.tail < MAX_CURSOR,
        ensures
            sent(*old(self), *old(ring), *final(self), *final(ring), value),
            final(self).inv(final(ring)),
    {
        self.has_space(ring);
        let ghost asked = self.core;
        self.prepare_slot(ring);
        self.write(ring, value);
        assert(old(self).core.asked(&asked, old(ring).gate@, 1));
        proof {
            lemma_pushed(*old(ring), *ring, value);
        }
    }

    /// Enqueue `value` if the slowest registered consumer leaves room for it,
    /// else give it back.
    pub fn try_push<T, P, C>(&mut self, ring: &mut RingBuffer<T, P, C>, value: T) -> (r: Result<
        (),
        T,
    >)
        requires
            old(self).inv(old(ring)),
            old(ring).gate.tail < MAX_CURSOR,
        ensures
            try_pushed(*old(self), *old(ring), *final(self), *final(ring), value, r),
            final(self).inv(final(ring)),
    {
        if !self.has_space(ring) {
            return Err(value);
        }
        let ghost asked = self.core;
        self.prepare_slot(ring);
        self.write(ring, value);
        assert(old(self).core.asked(&asked, old(ring).gate@, 1));
        proof {
            lemma_pushed(*old(ring), *ring, value);
        }
        Ok(())
    }

    /// Claim the next slot. Waits for [`has_space`](Self::has_space). The
    /// message that the slot held a lap ago is dropped now.
    pub fn claim<T, P, C>(&mut self, ring: &mut RingBuffer<T, P, C>) -> (r: WriteSlot)
        requires
            old(self).inv(old(ring)),
            old(ring).has_room(),
        ensures
            claimed(*old(self), *old(ring), *final(self), *final(ring), r),
            final(self).inv(final(ring)),
    {
        self.has_space(ring);
        self.prepare_slot(ring);
        WriteSlot { seq: self.core.next_seq }
    }

    /// Claim the next slot if the slowest registered consumer leaves room.
    pub fn try_claim<T, P, C>(&mut self, ring: &mut RingBuffer<T, P, C>) -> (r: Option<WriteSlot>)
        requires
            old(self).inv(old(ring)),
        ensures
            try_claimed(*old(self), *old(ring), *final(self), *final(ring), r),
            final(self).inv(final(ring)),
    {
        if !self.has_space(ring) {
            return None;
        }
        self.prepare_slot(ring);
        Some(WriteSlot { seq: self.core.next_seq })
    }

    /// Register another consumer. It sees what is published from now on.
    pub fn subscribe<T, P, C>(&self, ring: &mut RingBuffer<T, P, C>) -> (r: Result<
        Consumer,
        SubscribeError,
    >)
        requires
            self.inv(old(ring)),
        ensures
            subscribed(*old(ring), *final(ring), r),
            self.inv(final(ring)),
    {
        let r = subscribe_from(ring, self.core.mask);
        proof {
            if r is Ok {
                a_join_keeps_everyone(
                    self.core,
                    r->Ok_0.core,
                    old(ring).gate@,
                    ring.gate@,
                    r->Ok_0.core.slot.at(),
                );
            }
        }
        r
    }

    /// The number of registered consumers (capped at what a machine word can
    /// count).
    pub fn consumer_count<T, P, C>(&self, ring: &RingBuffer<T, P, C>) -> (r: usize)
        ensures
            r == (if active_in(ring.gate.registry@) <= usize::MAX {
                active_in(ring.gate.registry@) as int
            } else {
                usize::MAX as int
            }),
    {
        ring.gate.registry.active_count()
    }

    /// Drop the message that the next slot held a lap ago, if it has not been
    /// dropped. The watermark moves before the drop.
    pub fn prepare_slot<T, P, C>(&mut self, ring: &mut RingBuffer<T, P, C>)
        requires
            old(self).inv(old(ring)),
        ensures
            *final(self) == *old(self),
            prepared(*old(ring), *final(ring)),
            final(self).inv(final(ring)),
    {
        if self.core.next_seq.wrapping_sub(ring.dropped_through) > self.core.mask {
            self.drop_overwritten(ring);
        }
    }

    /// Drop the message that the next slot held a lap ago.
    pub fn drop_overwritten<T, P, C>(&mut self, ring: &mut RingBuffer<T, P, C>)
        requires
            old(self).inv(old(ring)),
            old(ring).gate.tail - old(ring).dropped_through == old(ring).cap(),
        ensures
            *final(self) == *old(self),
            prepared(*old(ring), *final(ring)),
            final(self).inv(final(ring)),
    {
        let capacity: u64 = self.core.mask + 1;
        let old_seq: u64 = self.core.next_seq.wrapping_sub(capacity);
        let mark: u64 = old_seq.wrapping_add(1);
        ring.dropped_through = mark;
        let index: usize = self.slot();
        proof {
            lemma_next_lap(self.core.next_seq as int, old(ring).cap());
            assert forall|seq: int| ring.dropped_through <= seq < ring.gate.tail implies (
            #[trigger] old(ring).slots()[seq % old(ring).cap()]) is Some && seq % old(ring).cap()
                != index by {
                lemma_distinct_slots(old_seq as int, seq, old(ring).cap());
            }
        }
        let slot = ring.buffer[index].take();
        proof {
            assert(ring.slots() =~= old(ring).slots().update(index as int, None));
            assert forall|seq: int| ring.dropped_through <= seq < ring.gate.tail implies (
            #[trigger] ring.slots()[seq % ring.cap()]) is Some by {
                assert(old(ring).slots()[seq % old(ring).cap()] is Some);
            }
        }
        match slot {
            Some(m) => {
                let dropped = ManuallyDrop::into_inner(m);
            },
            None => {},
        }
    }

    /// The position of the next write.
    pub fn slot(&self) -> (r: usize)
        requires
            ring_capacity(self.core.cap()),
        ensures
            r == self.core.next_seq as int % self.core.cap(),
            r < self.core.cap(),
    {
        slot_index(self.core.next_seq, self.core.mask)
    }

    /// Store a message in the prepared slot and publish it.
    pub fn write<T, P, C>(&mut self, ring: &mut RingBuffer<T, P, C>, value: T)
        requires
            old(self).inv(old(ring)),
            old(self).granted(),
            old(ring).gate.tail - old(ring).dropped_through < old(ring).cap(),
            old(ring).gate.tail < MAX_CURSOR,
        ensures
            final(self).core == (GateProducer {
                next_seq: (old(self).core.next_seq + 1) as u64,
                ..old(self).core
            }),
            written(*old(ring), *final(ring), Some(value)),
            final(self).inv(final(ring)),
    {
        let index: usize = self.slot();
        ring.buffer[index] = Some(ManuallyDrop::new(value));
        proof {
            assert(ring.slots() =~= old(ring).slots().update(index as int, Some(value)));
            lemma_other_slots(*old(ring), *ring);
        }
        self.publish(ring);
        proof {
            assert(ring.slots() =~= old(ring).slots().update(
                old(ring).gate.tail as int % old(ring).cap(),
                Some(value),
            ));
        }
    }

    /// Publish the slot that was written in place.
    pub fn publish<T, P, C>(&mut self, ring: &mut RingBuffer<T, P, C>)
        requires
            old(self).inv(old(ring)),
            old(self).granted(),
            old(ring).gate.tail - old(ring).dropped_through < old(ring).cap(),
            old(ring).gate.tail < MAX_CURSOR,
            old(ring).slots()[old(ring).gate.tail as int % old(ring).cap()] is Some,
        ensures
            final(self).core == (GateProducer {
                next_seq: (old(self).core.next_seq + 1) as u64,
                ..old(self).core
            }),
            written(
                *old(ring),
                *final(ring),
                old(ring).slots()[old(ring).gate.tail as int % old(ring).cap()],
            ),
            final(self).inv(final(ring)),
    {
        self.core.publish(&mut ring.gate, 1);
        proof {
            let index: int = old(ring).gate.tail as int % old(ring).cap();
            vstd::arithmetic::div_mod::lemma_mod_bound(
                old(ring).gate.tail as int,
                old(ring).cap(),
            );
            assert(ring.slots() =~= old(ring).slots().update(index, old(ring).slots()[index]));
            assert forall|seq: int| ring.dropped_through <= seq < ring.gate.tail implies (
            #[trigger] ring.slots()[seq % ring.cap()]) is Some by {
                if seq < old(ring).gate.tail {
                    assert(old(ring).slots()[seq % old(ring).cap()] is Some);
                }
            }
        }
    }

    /// How far the slowest known consumer is behind: an upper bound of every
    /// consumer's backlog.
    pub fn len(&self) -> (r: usize)
        requires
            self.core.known_lag() <= self.core.cap(),
            ring_capacity(self.core.cap()),
        ensures
            r == self.core.known_lag(),
    {
        self.core.next_seq.wrapping_sub(self.core.cached_min) as usize
    }

    /// Whether every known consumer has caught up.
    pub fn is_empty(&self) -> (r: bool)
        requires
            self.core.known_lag() <= self.core.cap(),
            ring_capacity(self.core.cap()),
        ensures
            r == (self.core.known_lag() == 0),
    {
        self.len() == 0
    }

    /// Whether the slowest known consumer leaves no room.
    pub fn is_full(&self) -> (r: bool)
        requires
            self.core.known_lag() <= self.core.cap(),
            ring_capacity(self.core.cap()),
        ensures
            r == self.looks_full(),
            r == (self.core.known_lag() == self.core.cap()),
    {
        crate::registry::lacks_space(
            self.core.next_seq,
            1,
            self.core.cached_min,
            self.core.mask + 1,
        )
    }

    /// Slots in the ring.
    pub fn capacity(&self) -> (r: usize)
        requires
            ring_capacity(self.core.cap()),
        ensures
            r == self.core.cap(),
    {
        (self.core.mask + 1) as usize
    }

    /// Give the producing half up: consumers drain what is left and then see
    /// [`Closed`].
    pub fn close<T, P, C>(self, ring: &mut RingBuffer<T, P, C>)
        requires
            self.inv(old(ring)),
        ensures
            *final(ring) == (RingBuffer {
                gate: Gate { closed: true, ..old(ring).gate },
                ..*old(ring)
            }),
            final(ring).inv(),
    {
        ring.gate.close();
    }
}

/// What enqueuing `value` does.
pub open spec fn sent<T, P, C>(
    producer: Producer,
    ring: RingBuffer<T, P, C>,
    producer_after: Producer,
    ring_after: RingBuffer<T, P, C>,
    value: T,
) -> bool {
    &&& pushed(ring, ring_after, value)
    &&& producer.core.spent(&producer_after.core, ring.gate@, 1)
}

/// What trying to enqueue `value` comes to.
pub open spec fn try_pushed<T, P, C>(
    producer: Producer,
    ring: RingBuffer<T, P, C>,
    producer_after: Producer,
    ring_after: RingBuffer<T, P, C>,
    value: T,
    r: Result<(), T>,
) -> bool {
    match r {
        Ok(()) => ring.has_room() && sent(producer, ring, producer_after, ring_after, value),
        Err(v) => {
            &&& !ring.has_room()
            &&& v == value
            &&& ring_after == ring
            &&& producer.core.asked(&producer_after.core, ring.gate@, 1)
        },
    }
}

/// What claiming the next slot does.
pub open spec fn claimed<T, P, C>(
    producer: Producer,
    ring: RingBuffer<T, P, C>,
    producer_after: Producer,
    ring_after: RingBuffer<T, P, C>,
    slot: WriteSlot,
) -> bool {
    &&& prepared(ring, ring_after)
    &&& producer.core.asked(&producer_after.core, ring.gate@, 1)
    &&& slot.claims(&producer_after, &ring_after)
}

/// What trying to claim the next slot comes to.
pub open spec fn try_claimed<T, P, C>(
    producer: Producer,
    ring: RingBuffer<T, P, C>,
    producer_after: Producer,
    ring_after: RingBuffer<T, P, C>,
    r: Option<WriteSlot>,
) -> bool {
    match r {
        Some(slot) => ring.has_room() && claimed(
            producer,
            ring,
            producer_after,
            ring_after,
            slot,
        ),
        None => {
            &&& !ring.has_room()
            &&& ring_after == ring
            &&& producer.core.asked(&producer_after.core, ring.gate@, 1)
        },
    }
}

/// What storing `value` in a claimed slot and publishing it does.
pub open spec fn committed<T, P, C>(
    producer: Producer,
    ring: RingBuffer<T, P, C>,
    producer_after: Producer,
    ring_after: RingBuffer<T, P, C>,
    value: T,
) -> bool {
    &&& written(ring, ring_after, Some(value))
    &&& producer_after.core == (GateProducer {
        next_seq: (producer.core.next_seq + 1) as u64,
        ..producer.core
    })
}

/// `after` is `before` with its next slot empty: a message that occupied it a
/// lap ago is dropped.
pub open spec fn prepared<T, P, C>(
    before: RingBuffer<T, P, C>,
    after: RingBuffer<T, P, C>,
) -> bool {
    if before.gate.tail - before.dropped_through == before.cap() {
        after == (RingBuffer {
            buffer: after.buffer,
            dropped_through: (before.dropped_through + 1) as u64,
            ..before
        }) && after.slots() == before.slots().update(before.gate.tail as int % before.cap(), None)
    } else {
        after == before
    }
}

/// `after` is `before` with one more message published in its next slot.
pub open spec fn written<T, P, C>(
    before: RingBuffer<T, P, C>,
    after: RingBuffer<T, P, C>,
    slot: Option<T>,
) -> bool {
    &&& after.slots() == before.slots().update(before.gate.tail as int % before.cap(), slot)
    &&& advanced(before.gate@, after.gate@, 1)
    &&& after.dropped_through == before.dropped_through
    &&& after.producer_wait == before.producer_wait
    &&& after.consumer_wait == before.consumer_wait
}

/// `after` is `before` with `value` enqueued; the message of a lap ago is
/// gone.
pub open spec fn pushed<T, P, C>(
    before: RingBuffer<T, P, C>,
    after: RingBuffer<T, P, C>,
    value: T,
) -> bool {
    &&& after.slots() == before.slots().update(before.gate.tail as int % before.cap(), Some(value))
    &&& advanced(before.gate@, after.gate@, 1)
    &&& after.dropped_through == (if before.gate.tail - before.dropped_through == before.cap() {
        before.dropped_through + 1
    } else {
        before.dropped_through as int
    })
    &&& after.producer_wait == before.producer_wait
    &&& after.consumer_wait == before.consumer_wait
}

proof fn lemma_pushed<T, P, C>(
    before: RingBuffer<T, P, C>,
    after: RingBuffer<T, P, C>,
    value: T,
)
    requires
        before.inv(),
        exists|mid: RingBuffer<T, P, C>| #[trigger]
            prepared(before, mid) && written(mid, after, Some(value)),
    ensures
        pushed(before, after, value),
{
    let mid = choose|mid: RingBuffer<T, P, C>| #[trigger]
        prepared(before, mid) && written(mid, after, Some(value));
    assert(after.slots() =~= before.slots().update(
        before.gate.tail as int % before.cap(),
        Some(value),
    ));
}

/// A write to the next slot leaves the slots of the live messages alone.
proof fn lemma_other_slots<T, P, C>(before: RingBuffer<T, P, C>, after: RingBuffer<T, P, C>)
    requires
        before.inv(),
        before.gate.tail - before.dropped_through < before.cap(),
        after.gate == before.gate,
        after.dropped_through == before.dropped_through,
        after.slots().len() == before.slots().len(),
        forall|i: int|
            0 <= i < before.cap() && i != before.gate.tail as int % before.cap()
                ==> after.slots()[i] == before.slots()[i],
    ensures
        after.inv(),
{
    assert forall|seq: int| after.dropped_through <= seq < after.gate.tail implies (
    #[trigger] after.slots()[seq % after.cap()]) is Some by {
        lemma_distinct_slots(seq, before.gate.tail as int, before.cap());
        vstd::arithmetic::div_mod::lemma_mod_bound(seq, before.cap());
        assert(before.slots()[seq % before.cap()] is Some);
    }
}

/// A claimed slot. It is published by a commit; a claim that is let go
/// publishes nothing.
pub struct WriteSlot {
    pub seq: u64,
}

impl WriteSlot {
    /// The claim is on the producer's next slot, which is granted and empty.
    pub open spec fn claims<T, P, C>(
        &self,
        producer: &Producer,
        ring: &RingBuffer<T, P, C>,
    ) -> bool {
        &&& self.seq == producer.core.next_seq
        &&& producer.inv(ring)
        &&& producer.granted()
        &&& ring.gate.tail - ring.dropped_through < ring.cap()
    }

    /// The storage of the claimed slot, to be filled in place.
    pub fn uninit<'a, T, P, C>(
        &mut self,
        producer: &Producer,
        ring: &'a mut RingBuffer<T, P, C>,
    ) -> (r: &'a mut Option<ManuallyDrop<T>>)
        requires
            old(self).claims(producer, old(ring)),
        ensures
            occupant(*r) == old(ring).slots()[old(self).seq as int % old(ring).cap()],
            final(ring).slots() == old(ring).slots().update(
                old(self).seq as int % old(ring).cap(),
                occupant(*final(r)),
            ),
            final(ring).gate == old(ring).gate,
            final(ring).dropped_through == old(ring).dropped_through,
            final(ring).producer_wait == old(ring).producer_wait,
            final(ring).consumer_wait == old(ring).consumer_wait,
            *final(self) == *old(self),
    {
        let index: usize = producer.slot();
        &mut ring.buffer[index]
    }

    /// Store `value` in the slot and publish it.
    pub fn commit<T, P, C>(
        self,
        producer: &mut Producer,
        ring: &mut RingBuffer<T, P, C>,
        value: T,
    )
        requires
            self.claims(old(producer), old(ring)),
            old(ring).gate.tail < MAX_CURSOR,
        ensures
            committed(*old(producer), *old(ring), *final(producer), *final(ring), value),
            final(producer).inv(final(ring)),
    {
        producer.write(ring, value);
    }

    /// Publish the slot as it was filled in place.
    pub fn commit_init<T, P, C>(self, producer: &mut Producer, ring: &mut RingBuffer<T, P, C>)
        requires
            self.claims(old(producer), old(ring)),
            old(ring).gate.tail < MAX_CURSOR,
            old(ring).slots()[self.seq as int % old(ring).cap()] is Some,
        ensures
            written(
                *old(ring),
                *final(ring),
                old(ring).slots()[self.seq as int % old(ring).cap()],
            ),
            final(producer).core == (GateProducer {
                next_seq: (old(producer).core.next_seq + 1) as u64,
                ..old(producer).core
            }),
            final(producer).inv(final(ring)),
    {
        producer.publish(ring);
    }
}

/// Filling a claimed slot in place keeps the claim.
pub proof fn filling_keeps_the_claim<T, P, C>(
    slot: WriteSlot,
    producer: Producer,
    before: RingBuffer<T, P, C>,
    after: RingBuffer<T, P, C>,
    content: Option<T>,
)
    requires
        slot.claims(&producer, &before),
        after.slots() == before.slots().update(slot.seq as int % before.cap(), content),
        after.gate == before.gate,
        after.dropped_through == before.dropped_through,
    ensures
        slot.claims(&producer, &after),
{
    lemma_other_slots(before, after);
}

/// The outcome of a subscription.
pub open spec fn subscribed<T, P, C>(
    before: RingBuffer<T, P, C>,
    after: RingBuffer<T, P, C>,
    r: Result<Consumer, SubscribeError>,
) -> bool {
    match r {
        Ok(consumer) => {
            &&& !before.gate.closed
            &&& after == (RingBuffer { gate: after.gate, ..before })
            &&& joined(before.gate@, after.gate@, consumer.core.slot.at())
            &&& consumer.inv(&after)
            &&& consumer.core.read_cursor == before.gate.tail
            &&& consumer.pending(&after).len() == 0
        },
        Err(e) => e == SubscribeError::Closed && before.gate.closed && after == before,
    }
}

/// Register a consumer, unless the producer is gone.
fn subscribe_from<T, P, C>(ring: &mut RingBuffer<T, P, C>, mask: u64) -> (r: Result<
    Consumer,
    SubscribeError,
>)
    requires
        old(ring).inv(),
        mask + 1 == old(ring).cap(),
    ensures
        subscribed(*old(ring), *final(ring), r),
        final(ring).gate.inv(),
{
    if ring.gate.closed {
        return Err(SubscribeError::Closed);
    }
    let core = GateConsumer::join(&mut ring.gate, mask);
    Ok(Consumer { core })
}

/// A consuming half.
pub struct Consumer {
    pub core: GateConsumer,
}

impl Consumer {
    /// The messages that the consumer will be handed, oldest first: all that
    /// was published since it joined and that it has not consumed.
    pub open spec fn pending<T, P, C>(&self, ring: &RingBuffer<T, P, C>) -> Seq<T> {
        Seq::new(
            self.core.unread(ring.gate@) as nat,
            |i: int| ring.message(self.core.read_cursor + i),
        )
    }

    /// The consumer belongs to the ring, and nothing that it has not released
    /// has been dropped.
    pub open spec fn inv<T, P, C>(&self, ring: &RingBuffer<T, P, C>) -> bool {
        &&& ring.inv()
        &&& self.core.inv(ring.gate@)
        &&& self.core.cap() == ring.cap()
        &&& ring.dropped_through <= self.core.published
    }

    /// The condition that `pop` and `pop_ref` wait for.
    pub open spec fn is_ready<T, P, C>(&self, ring: &RingBuffer<T, P, C>) -> bool {
        self.pending(ring).len() > 0 || ring.gate.closed
    }

    /// The copy of the producer's cursor after a look for a message.
    pub open spec fn looked_up<T, P, C>(&self, ring: &RingBuffer<T, P, C>) -> u64 {
        if self.core.write_cache == self.core.read_cursor {
            ring.gate.tail
        } else {
            self.core.write_cache
        }
    }

    /// `after` is the consumer one message further, with `cache` as its copy
    /// of the producer's cursor.
    pub open spec fn next(&self, after: &Self, cache: u64) -> bool {
        let batch = batch_of(self.core.cap(), MAX_PUBLISH_BATCH_ELEMS as int) as u64;
        let core = GateConsumer { write_cache: cache, ..self.core };
        let full = cache - self.core.read_cursor > self.core.cap() - 1;
        after.core == GateConsumer {
            read_cursor: (core.read_cursor + 1) as u64,
            published: if core.publishes(1, full, batch) {
                (core.read_cursor + 1) as u64
            } else {
                core.published
            },
            ..core
        }
    }

    /// Whether `pop` and `pop_ref` can be answered: a message is there, or
    /// none will come.
    pub fn ready<T, P, C>(&self, ring: &RingBuffer<T, P, C>) -> (r: bool)
        requires
            self.inv(ring),
        ensures
            r == self.is_ready(ring),
    {
        ring.gate.tail != self.core.read_cursor || ring.gate.closed
    }

    /// Dequeue the oldest message. Waits for [`ready`](Self::ready).
    pub fn pop<T: Clone, P, C>(&mut self, ring: &mut RingBuffer<T, P, C>) -> (r: Result<T, Closed>)
        requires
            old(self).inv(old(ring)),
            old(self).is_ready(old(ring)),
        ensures
            match r {
                Ok(value) => {
                    &&& old(self).pending(old(ring)).len() > 0
                    &&& old(self).next(final(self), old(self).looked_up(old(ring)))
                    &&& cloned(old(self).pending(old(ring))[0], value)
                    &&& final(self).pending(final(ring)) == old(self).pending(
                        old(ring),
                    ).drop_first()
                },
                Err(_) => {
                    &&& old(self).pending(old(ring)).len() == 0
                    &&& old(ring).gate.closed
                    &&& *final(ring) == *old(ring)
                    &&& looked(*old(ring), *old(self), *final(self))
                    &&& final(self).pending(final(ring)) == old(self).pending(old(ring))
                },
            },
            moved(*old(ring), *final(ring), *old(self), *final(self)),
            final(self).inv(final(ring)),
    {
        if self.has_item(ring) {
            return Ok(self.read(ring));
        }
        proof {
            lemma_same_slot(*ring, *self);
        }
        match self.check_closed(ring) {
            Err(e) => Err(e),
            Ok(()) => Ok(self.read(ring)),
        }
    }

    /// Dequeue the oldest message if there is one; `Closed` once the producer
    /// is gone and everything is consumed.
    pub fn try_pop<T: Clone, P, C>(&mut self, ring: &mut RingBuffer<T, P, C>) -> (r: Result<
        Option<T>,
        Closed,
    >)
        requires
            old(self).inv(old(ring)),
        ensures
            match r {
                Ok(Some(value)) => {
                    &&& old(self).pending(old(ring)).len() > 0
                    &&& old(self).next(final(self), old(self).looked_up(old(ring)))
                    &&& cloned(old(self).pending(old(ring))[0], value)
                    &&& final(self).pending(final(ring)) == old(self).pending(
                        old(ring),
                    ).drop_first()
                },
                Ok(None) => {
                    &&& old(self).pending(old(ring)).len() == 0
                    &&& !old(ring).gate.closed
                    &&& *final(ring) == *old(ring)
                    &&& looked(*old(ring), *old(self), *final(self))
                    &&& final(self).pending(final(ring)) == old(self).pending(old(ring))
                },
                Err(_) => {
                    &&& old(self).pending(old(ring)).len() == 0
                    &&& old(ring).gate.closed
                    &&& *final(ring) == *old(ring)
                    &&& looked(*old(ring), *old(self), *final(self))
                    &&& final(self).pending(final(ring)) == old(self).pending(old(ring))
                },
            },
            moved(*old(ring), *final(ring), *old(self), *final(self)),
            final(self).inv(final(ring)),
    {
        if self.has_item(ring) {
            return Ok(Some(self.read(ring)));
        }
        proof {
            lemma_same_slot(*ring, *self);
        }
        match self.check_closed(ring) {
            Err(e) => return Err(e),
            Ok(()) => {},
        }
        if self.core.available_cached() != 0 {
            return Ok(Some(self.read(ring)));
        }
        Ok(None)
    }

    /// Borrow the oldest message. Waits for [`ready`](Self::ready).
    pub fn pop_ref<T, P, C>(&mut self, ring: &RingBuffer<T, P, C>) -> (r: Result<PopRef, Closed>)
        requires
            old(self).inv(ring),
            old(self).is_ready(ring),
        ensures
            match r {
                Ok(borrow) => old(self).pending(ring).len() > 0 && borrow.borrows(
                    final(self),
                    ring,
                ),
                Err(_) => old(self).pending(ring).len() == 0 && ring.gate.closed,
            },
            final(self).pending(ring) == old(self).pending(ring),
            looked(*ring, *old(self), *final(self)),
            final(self).inv(ring),
    {
        if self.has_item(ring) {
            return Ok(PopRef { seq: self.core.read_cursor });
        }
        match self.check_closed(ring) {
            Err(e) => Err(e),
            Ok(()) => Ok(PopRef { seq: self.core.read_cursor }),
        }
    }

    /// Borrow the oldest message if there is one.
    pub fn try_pop_ref<T, P, C>(&mut self, ring: &RingBuffer<T, P, C>) -> (r: Result<
        Option<PopRef>,
        Closed,
    >)
        requires
            old(self).inv(ring),
        ensures
            match r {
                Ok(Some(borrow)) => old(self).pending(ring).len() > 0 && borrow.borrows(
                    final(self),
                    ring,
                ),
                Ok(None) => old(self).pending(ring).len() == 0 && !ring.gate.closed,
                Err(_) => old(self).pending(ring).len() == 0 && ring.gate.closed,
            },
            final(self).pending(ring) == old(self).pending(ring),
            looked(*ring, *old(self), *final(self)),
            final(self).inv(ring),
    {
        if self.has_item(ring) {
            return Ok(Some(PopRef { seq: self.core.read_cursor }));
        }
        match self.check_closed(ring) {
            Err(e) => return Err(e),
            Ok(()) => {},
        }
        if self.core.available_cached() != 0 {
            return Ok(Some(PopRef { seq: self.core.read_cursor }));
        }
        Ok(None)
    }

    /// Consume a batch: everything in the ring, at most the deferred-publish
    /// bound. Each message is handed to `f` in place, oldest first; the
    /// progress is published once, after the last. The number of messages.
    ///
    /// A message counts as consumed before `f` sees it, and where `f` unwinds
    /// the progress is published on the way out (see [`hand_over`]).
    pub fn drain<T, P, C, H: Handler<T>>(&mut self, ring: &mut RingBuffer<T, P, C>, f: H) -> (r:
        usize)
        requires
            old(self).inv(old(ring)),
            forall|i: int|
                0 <= i < old(self).pending(old(ring)).len() ==> f.accepts(
                    &(#[trigger] old(self).pending(old(ring))[i]),
                ),
        ensures
            r == drained(old(self).pending(old(ring)).len() as int, old(ring).cap()),
            exists|after: H| #[trigger]
                took(f, old(self).pending(old(ring)).take(r as int), after) && has_resolved(after),
            final(self).pending(final(ring)) == old(self).pending(old(ring)).skip(r as int),
            final(self).core == (GateConsumer {
                read_cursor: (old(self).core.read_cursor + r) as u64,
                published: if r == 0 {
                    old(self).core.published
                } else {
                    (old(self).core.read_cursor + r) as u64
                },
                write_cache: old(ring).gate.tail,
                ..old(self).core
            }),
            moved(*old(ring), *final(ring), *old(self), *final(self)),
            final(self).inv(final(ring)),
    {
        let mut f = f;
        let ghost g = f;
        let end: u64 = self.core.refresh(&ring.gate);
        let available: u64 = end.wrapping_sub(self.core.read_cursor);
        if available == 0 {
            proof {
                lemma_same_slot(*ring, *self);
                assert(self.pending(ring) =~= old(self).pending(old(ring)).skip(0));
                assert(took(g, old(self).pending(old(ring)).take(0), f));
            }
            return 0;
        }
        let batch: u64 = publish_batch_elems(self.core.mask + 1);
        let count: u64 = if available < batch {
            available
        } else {
            batch
        };
        let ghost start = self.core.read_cursor;
        let ghost pending = old(self).pending(old(ring));
        let mut i: u64 = 0;
        while i < count
            invariant
                i <= count,
                count <= available,
                start + available == ring.gate.tail,
                start == old(self).core.read_cursor,
                *ring == (RingBuffer { gate: ring.gate, ..*old(ring) }),
                ring.gate.inv(),
                ring.gate@ == old(ring).gate@,
                old(self).inv(old(ring)),
                pending == old(self).pending(old(ring)),
                self.core == (GateConsumer {
                    read_cursor: (start + i) as u64,
                    write_cache: old(ring).gate.tail,
                    ..old(self).core
                }),
                forall|j: int| 0 <= j < pending.len() ==> f.accepts(&(#[trigger] pending[j])),
                took(g, pending.take(i as int), f),
            decreases count - i,
        {
            let index: usize = slot_index(self.core.read_cursor, self.core.mask);
            self.core.read_cursor = self.core.read_cursor.wrapping_add(1);
            proof {
                assert(ring.slots()[(start + i) % ring.cap()] is Some);
            }
            let value: &T = peek(&ring.buffer, index);
            assert(*value == pending[i as int]);
            let place: &mut u64 = ring.gate.registry.place(self.core.slot);
            let ghost mid = f;
            hand_over(&mut self.core, Some(place), &mut f, value);
            proof {
                lemma_same_slot(*old(ring), *old(self));
                lemma_took(g, pending.take(i as int), mid, *value, f);
                assert(pending.take(i as int).push(*value) =~= pending.take(i + 1));
            }
            i += 1;
        }
        self.core.flush_pending(&mut ring.gate);
        proof {
            assert(self.pending(ring) =~= old(self).pending(old(ring)).skip(count as int));
        }
        count as usize
    }

    /// Register another consumer. It sees what is published from now on.
    pub fn subscribe<T, P, C>(&self, ring: &mut RingBuffer<T, P, C>) -> (r: Result<
        Consumer,
        SubscribeError,
    >)
        requires
            self.inv(old(ring)),
        ensures
            subscribed(*old(ring), *final(ring), r),
            self.inv(final(ring)),
            self.pending(final(ring)) == self.pending(old(ring)),
            r matches Ok(other) ==> other.core.slot.at() != self.core.slot.at(),
    {
        let r = subscribe_from(ring, self.core.mask);
        proof {
            if r is Ok {
                a_join_keeps_everyone(
                    arbitrary(),
                    self.core,
                    old(ring).gate@,
                    ring.gate@,
                    r->Ok_0.core.slot.at(),
                );
            }
            assert(self.pending(ring) =~= self.pending(old(ring)));
        }
        r
    }

    /// The number of pending messages.
    pub fn len<T, P, C>(&self, ring: &RingBuffer<T, P, C>) -> (r: usize)
        requires
            self.inv(ring),
        ensures
            r == self.pending(ring).len(),
    {
        ring.gate.tail.wrapping_sub(self.core.read_cursor) as usize
    }

    /// Whether nothing is pending.
    pub fn is_empty<T, P, C>(&self, ring: &RingBuffer<T, P, C>) -> (r: bool)
        requires
            self.inv(ring),
        ensures
            r == (self.pending(ring).len() == 0),
    {
        self.len(ring) == 0
    }

    /// Slots in the ring.
    pub fn capacity(&self) -> (r: usize)
        requires
            ring_capacity(self.core.cap()),
        ensures
            r == self.core.cap(),
    {
        (self.core.mask + 1) as usize
    }

    /// Whether a message is pending.
    pub fn has_item<T, P, C>(&mut self, ring: &RingBuffer<T, P, C>) -> (r: bool)
        requires
            old(self).inv(ring),
        ensures
            r == (old(self).pending(ring).len() > 0),
            final(self).core == (GateConsumer {
                write_cache: old(self).looked_up(ring),
                ..old(self).core
            }),
            final(self).inv(ring),
            final(self).pending(ring) == old(self).pending(ring),
            r ==> final(self).core.read_cursor < final(self).core.write_cache,
    {
        let r: bool = self.core.has_item(&ring.gate);
        proof {
            assert(self.pending(ring) =~= old(self).pending(ring));
        }
        r
    }

    /// `Closed` where the producer is gone and a fresh look finds nothing.
    pub fn check_closed<T, P, C>(&mut self, ring: &RingBuffer<T, P, C>) -> (r: Result<(), Closed>)
        requires
            old(self).inv(ring),
        ensures
            r is Err == (ring.gate.closed && old(self).pending(ring).len() == 0),
            final(self).core == (GateConsumer {
                write_cache: if ring.gate.closed {
                    ring.gate.tail
                } else {
                    old(self).core.write_cache
                },
                ..old(self).core
            }),
            final(self).inv(ring),
            final(self).pending(ring) == old(self).pending(ring),
    {
        if ring.gate.closed {
            self.core.refresh(&ring.gate);
            proof {
                assert(self.pending(ring) =~= old(self).pending(ring));
            }
            if self.core.available_cached() == 0 {
                return Err(Closed);
            }
        }
        Ok(())
    }

    /// Clone the oldest message and step past it.
    pub fn read<T: Clone, P, C>(&mut self, ring: &mut RingBuffer<T, P, C>) -> (r: T)
        requires
            old(self).inv(old(ring)),
            old(self).core.read_cursor < old(self).core.write_cache,
        ensures
            cloned(old(self).pending(old(ring))[0], r),
            old(self).next(final(self), old(self).core.write_cache),
            final(self).pending(final(ring)) == old(self).pending(old(ring)).drop_first(),
            moved(*old(ring), *final(ring), *old(self), *final(self)),
            final(self).inv(final(ring)),
    {
        let index: usize = slot_index(self.core.read_cursor, self.core.mask);
        proof {
            assert(ring.slots()[self.core.read_cursor as int % ring.cap()] is Some);
        }
        let value: T = peek(&ring.buffer, index).clone();
        self.advance_one(ring);
        value
    }

    /// Step past the oldest message. The progress is published where the ring
    /// was full, where the known messages are drained, or where the bound on
    /// deferred progress is reached.
    pub fn advance_one<T, P, C>(&mut self, ring: &mut RingBuffer<T, P, C>)
        requires
            old(self).inv(old(ring)),
            old(self).core.read_cursor < old(self).core.write_cache,
        ensures
            old(self).next(final(self), old(self).core.write_cache),
            final(self).pending(final(ring)) == old(self).pending(old(ring)).drop_first(),
            moved(*old(ring), *final(ring), *old(self), *final(self)),
            final(self).inv(final(ring)),
    {
        let capacity: u64 = self.core.mask + 1;
        let was_full: bool = self.core.write_cache.wrapping_sub(self.core.read_cursor) > capacity
            - 1;
        let batch: u64 = publish_batch_elems(capacity);
        self.core.advance(&mut ring.gate, 1, was_full, batch);
        proof {
            assert(self.pending(ring) =~= old(self).pending(old(ring)).drop_first());
        }
    }

    /// Leave the ring. The slot no longer holds the producer back.
    pub fn detach<T, P, C>(self, ring: &mut RingBuffer<T, P, C>)
        requires
            self.inv(old(ring)),
        ensures
            *final(ring) == (RingBuffer { gate: final(ring).gate, ..*old(ring) }),
            stored(
                old(ring).gate@,
                final(ring).gate@,
                self.core.slot.at(),
                GateSlot { active: false, cursor: DETACHED },
            ),
            final(ring).inv(),
    {
        self.core.detach(&mut ring.gate);
    }
}

/// The size of a batch.
pub open spec fn drained(pending: int, capacity: int) -> int {
    if pending < batch_of(capacity, MAX_PUBLISH_BATCH_ELEMS as int) {
        pending
    } else {
        batch_of(capacity, MAX_PUBLISH_BATCH_ELEMS as int)
    }
}

/// Looking changes at most the copy of the producer's cursor.
pub open spec fn looked<T, P, C>(
    ring: RingBuffer<T, P, C>,
    before: Consumer,
    after: Consumer,
) -> bool {
    ||| after == before
    ||| after.core == (GateConsumer { write_cache: ring.gate.tail, ..before.core })
}

/// A consumer moves forward in the ring: the ring changes in that consumer's
/// slot alone, which now holds the cursor that the consumer published.
pub open spec fn moved<T, P, C>(
    ring_before: RingBuffer<T, P, C>,
    ring_after: RingBuffer<T, P, C>,
    before: Consumer,
    after: Consumer,
) -> bool {
    &&& ring_after == (RingBuffer { gate: ring_after.gate, ..ring_before })
    &&& stored(
        ring_before.gate@,
        ring_after.gate@,
        before.core.slot.at(),
        GateSlot { active: true, cursor: after.core.published },
    )
    &&& after.core.slot == before.core.slot
    &&& after.core.mask == before.core.mask
    &&& before.core.published <= after.core.published <= ring_before.gate.tail
}

proof fn lemma_same_slot<T, P, C>(ring: RingBuffer<T, P, C>, consumer: Consumer)
    requires
        consumer.inv(&ring),
    ensures
        ring.gate.registry@ == ring.gate.registry@.update(
            consumer.core.slot.at(),
            GateSlot { active: true, cursor: consumer.core.published },
        ),
{
    assert(ring.gate.registry@ =~= ring.gate.registry@.update(
        consumer.core.slot.at(),
        GateSlot { active: true, cursor: consumer.core.published },
    ));
}

/// A borrowed message. The consumer steps past it when the borrow is
/// released.
pub struct PopRef {
    pub seq: u64,
}

impl PopRef {
    /// The borrow is of the consumer's oldest message.
    pub open spec fn borrows<T, P, C>(
        &self,
        consumer: &Consumer,
        ring: &RingBuffer<T, P, C>,
    ) -> bool {
        &&& consumer.inv(ring)
        &&& self.seq == consumer.core.read_cursor
        &&& consumer.core.read_cursor < consumer.core.write_cache
    }

    /// The message.
    pub fn get<'a, T, P, C>(
        &self,
        consumer: &Consumer,
        ring: &'a RingBuffer<T, P, C>,
    ) -> (r: &'a T)
        requires
            self.borrows(consumer, ring),
        ensures
            *r == consumer.pending(ring)[0],
    {
        let index: usize = slot_index(self.seq, consumer.core.mask);
        proof {
            assert(ring.slots()[self.seq as int % ring.cap()] is Some);
        }
        peek(&ring.buffer, index)
    }

    /// Step past the message.
    pub fn release<T, P, C>(self, consumer: &mut Consumer, ring: &mut RingBuffer<T, P, C>)
        requires
            self.borrows(old(consumer), old(ring)),
        ensures
            old(consumer).next(final(consumer), old(consumer).core.write_cache),
            final(consumer).pending(final(ring)) == old(consumer).pending(old(ring)).drop_first(),
            moved(*old(ring), *final(ring), *old(consumer), *final(consumer)),
            final(consumer).inv(final(ring)),
    {
        consumer.advance_one(ring);
    }
}

/// Every consumer is handed every message: a push appends its message to what
/// each registered consumer has pending, and takes nothing away.
pub proof fn a_push_reaches_every_consumer<T, P, C>(
    producer: Producer,
    consumer: Consumer,
    before: RingBuffer<T, P, C>,
    after: RingBuffer<T, P, C>,
    value: T,
)
    requires
        producer.inv(&before),
        consumer.inv(&before),
        before.has_room(),
        pushed(before, after, value),
        after.inv(),
    ensures
        consumer.inv(&after),
        consumer.pending(&after) == consumer.pending(&before).push(value),
{
    let k = consumer.core.slot.at();
    assert(holds_back(before.gate.registry@[k]));
    let cap = before.cap();
    let tail = before.gate.tail as int;
    vstd::arithmetic::div_mod::lemma_mod_bound(tail, cap);
    assert forall|i: int| 0 <= i < consumer.pending(&before).len() implies #[trigger]
        consumer.pending(&after)[i] == consumer.pending(&before)[i] by {
        let seq: int = consumer.core.read_cursor + i;
        lemma_distinct_slots(seq, tail, cap);
        vstd::arithmetic::div_mod::lemma_mod_bound(seq, cap);
    }
    assert(consumer.pending(&after) =~= consumer.pending(&before).push(value));
}

/// Dropping what a claimed slot held a lap ago takes nothing away from a
/// consumer: the slot was granted, so every registered consumer is past it.
pub proof fn a_claim_takes_nothing_away<T, P, C>(
    producer: Producer,
    consumer: Consumer,
    before: RingBuffer<T, P, C>,
    after: RingBuffer<T, P, C>,
)
    requires
        producer.inv(&before),
        consumer.inv(&before),
        before.has_room(),
        prepared(before, after),
        after.inv(),
    ensures
        consumer.inv(&after),
        consumer.pending(&after) == consumer.pending(&before),
{
    let k = consumer.core.slot.at();
    assert(holds_back(before.gate.registry@[k]));
    let cap = before.cap();
    let tail = before.gate.tail as int;
    vstd::arithmetic::div_mod::lemma_mod_bound(tail, cap);
    assert forall|i: int| 0 <= i < consumer.pending(&before).len() implies #[trigger]
        consumer.pending(&after)[i] == consumer.pending(&before)[i] by {
        let seq: int = consumer.core.read_cursor + i;
        lemma_distinct_slots(seq, tail, cap);
        vstd::arithmetic::div_mod::lemma_mod_bound(seq, cap);
    }
    assert(consumer.pending(&after) =~= consumer.pending(&before));
}

/// A consumer that moves forward, or leaves, keeps the producer going and
/// takes nothing away from another consumer.
pub proof fn a_consumer_disturbs_nobody<T, P, C>(
    producer: Producer,
    mover: Consumer,
    other: Consumer,
    before: RingBuffer<T, P, C>,
    after: RingBuffer<T, P, C>,
    slot: GateSlot,
)
    requires
        mover.inv(&before),
        after == (RingBuffer { gate: after.gate, ..before }),
        stored(before.gate@, after.gate@, mover.core.slot.at(), slot),
        holds_back(slot) ==> mover.core.published <= slot.cursor <= before.gate.tail,
    ensures
        after.inv(),
        producer.inv(&before) ==> producer.inv(&after),
        other.inv(&before) && other.core.slot.at() != mover.core.slot.at() ==> other.inv(&after)
            && other.pending(&after) == other.pending(&before),
{
    progress_keeps_other_consumers_or_gate(mover.core, before.gate@, after.gate@, slot);
    if producer.inv(&before) {
        progress_keeps_the_producer(producer.core, mover.core, before.gate@, after.gate@, slot);
    }
    if other.inv(&before) && other.core.slot.at() != mover.core.slot.at() {
        progress_keeps_other_consumers(mover.core, other.core, before.gate@, after.gate@, slot);
        assert(other.pending(&after) =~= other.pending(&before));
    }
}

proof fn progress_keeps_other_consumers_or_gate(
    mover: GateConsumer,
    before: GateView,
    after: GateView,
    slot: GateSlot,
)
    requires
        mover.inv(before),
        stored(before, after, mover.slot.at(), slot),
        holds_back(slot) ==> mover.published <= slot.cursor <= before.tail,
    ensures
        after.inv(),
{
    assert forall|j: int|
        0 <= j < after.slots.len() && holds_back(#[trigger] after.slots[j]) implies
        after.slots[j].cursor <= after.tail by {
        if j != mover.slot.at() {
            assert(holds_back(before.slots[j]));
        }
    }
}

/// A join disturbs neither the producer nor a consumer that was there before.
pub proof fn a_join_disturbs_nobody<T, P, C>(
    producer: Producer,
    other: Consumer,
    joiner: Consumer,
    before: RingBuffer<T, P, C>,
    after: RingBuffer<T, P, C>,
)
    requires
        subscribed(before, after, Ok(joiner)),
    ensures
        producer.inv(&before) ==> producer.inv(&after),
        other.inv(&before) ==> other.inv(&after) && other.pending(&after) == other.pending(&before)
            && other.core.slot.at() != joiner.core.slot.at(),
{
    a_join_keeps_everyone(
        producer.core,
        other.core,
        before.gate@,
        after.gate@,
        joiner.core.slot.at(),
    );
    if other.inv(&before) {
        assert(other.pending(&after) =~= other.pending(&before));
    }
}

/// Writing to a claimed slot keeps every consumer's pending messages.
pub proof fn filling_takes_nothing_away<T, P, C>(
    slot: WriteSlot,
    producer: Producer,
    consumer: Consumer,
    before: RingBuffer<T, P, C>,
    after: RingBuffer<T, P, C>,
    content: Option<T>,
)
    requires
        slot.claims(&producer, &before),
        consumer.inv(&before),
        after.slots() == before.slots().update(slot.seq as int % before.cap(), content),
        after.gate == before.gate,
        after.dropped_through == before.dropped_through,
    ensures
        producer.inv(&after),
        consumer.inv(&after),
        consumer.pending(&after) == consumer.pending(&before),
{
    filling_keeps_the_claim(slot, producer, before, after, content);
    a_grant_leaves_room(producer.core, before.gate@, 1);
    let k = consumer.core.slot.at();
    assert(holds_back(before.gate.registry@[k]));
    let cap = before.cap();
    let tail = before.gate.tail as int;
    assert forall|i: int| 0 <= i < consumer.pending(&before).len() implies #[trigger]
        consumer.pending(&after)[i] == consumer.pending(&before)[i] by {
        let seq: int = consumer.core.read_cursor + i;
        lemma_distinct_slots(seq, tail, cap);
        vstd::arithmetic::div_mod::lemma_mod_bound(seq, cap);
        vstd::arithmetic::div_mod::lemma_mod_bound(tail, cap);
    }
    assert(consumer.pending(&after) =~= consumer.pending(&before));
}

/// A consumer can take what is pending after the producer has left.
pub proof fn closing_takes_nothing_away<T, P, C>(
    producer: Producer,
    consumer: Consumer,
    before: RingBuffer<T, P, C>,
    after: RingBuffer<T, P, C>,
)
    requires
        consumer.inv(&before),
        after == (RingBuffer { gate: Gate { closed: true, ..before.gate }, ..before }),
    ensures
        consumer.inv(&after),
        consumer.pending(&after) == consumer.pending(&before),
        producer.inv(&before) ==> producer.inv(&after),
{
    assert(after.gate@.slots == before.gate@.slots);
    assert(consumer.pending(&after) =~= consumer.pending(&before));
}

/// Two rings that no handle can tell apart.
pub open spec fn same_ring<T, P, C>(a: RingBuffer<T, P, C>, b: RingBuffer<T, P, C>) -> bool {
    &&& a.slots() == b.slots()
    &&& a.gate@ == b.gate@
    &&& a.dropped_through == b.dropped_through
    &&& a.producer_wait == b.producer_wait
    &&& a.consumer_wait == b.consumer_wait
}

/// A claim is refused exactly where a push is, and a claim that is let go
/// publishes nothing: every consumer has the same messages pending, there is
/// room as before, and the next push, which succeeds, leaves the ring that it
/// would have left without the claim.
pub proof fn a_claim_that_is_let_go_changes_nothing<T, P, C>(
    producer: Producer,
    ring: RingBuffer<T, P, C>,
    claimer: Producer,
    after_claim: RingBuffer<T, P, C>,
    slot: Option<WriteSlot>,
    pusher: Producer,
    after_push: RingBuffer<T, P, C>,
    value: T,
    r: Result<(), T>,
    later: Producer,
    after_both: RingBuffer<T, P, C>,
    r_later: Result<(), T>,
    consumer: Consumer,
)
    requires
        producer.inv(&ring),
        try_claimed(producer, ring, claimer, after_claim, slot),
        claimer.inv(&after_claim),
        try_pushed(producer, ring, pusher, after_push, value, r),
        try_pushed(claimer, after_claim, later, after_both, value, r_later),
    ensures
        slot is None == r is Err,
        r_later is Err == r is Err,
        after_claim.gate == ring.gate,
        claimer.core.next_seq == producer.core.next_seq,
        consumer.inv(&ring) ==> consumer.inv(&after_claim) && consumer.pending(&after_claim)
            == consumer.pending(&ring),
        same_ring(after_both, after_push),
{
    assert(after_claim.gate == ring.gate);
    assert(after_claim.cap() == ring.cap());
    if slot is Some {
        if consumer.inv(&ring) {
            a_claim_takes_nothing_away(producer, consumer, ring, after_claim);
        }
        assert(after_both.slots() =~= after_push.slots());
    }
}

/// Claiming a slot and committing a value leaves the ring, and the producer,
/// as pushing the value does: every consumer has one more message pending.
pub proof fn claim_and_commit_is_push<T, P, C>(
    producer: Producer,
    ring: RingBuffer<T, P, C>,
    claimer: Producer,
    after_claim: RingBuffer<T, P, C>,
    slot: WriteSlot,
    committer: Producer,
    after_commit: RingBuffer<T, P, C>,
    pusher: Producer,
    after_push: RingBuffer<T, P, C>,
    value: T,
    consumer: Consumer,
)
    requires
        producer.inv(&ring),
        ring.has_room(),
        claimed(producer, ring, claimer, after_claim, slot),
        committed(claimer, after_claim, committer, after_commit, value),
        committer.inv(&after_commit),
        sent(producer, ring, pusher, after_push, value),
    ensures
        sent(producer, ring, committer, after_commit, value),
        same_ring(after_commit, after_push),
        consumer.inv(&ring) ==> consumer.inv(&after_commit) && consumer.pending(&after_commit)
            == consumer.pending(&ring).push(value),
{
    assert(producer.core.asked(&claimer.core, ring.gate@, 1));
    assert(after_claim.cap() == ring.cap());
    assert(after_commit.slots() =~= after_push.slots());
    assert(after_commit.slots() =~= ring.slots().update(
        ring.gate.tail as int % ring.cap(),
        Some(value),
    ));
    if consumer.inv(&ring) {
        a_push_reaches_every_consumer(producer, consumer, ring, after_commit, value);
    }
}

/// What the producer tells of a full ring: it looks full exactly where its
/// count is the capacity; it looks full where a consumer has a ring full
/// pending; and where it does not look full the next push succeeds.
pub proof fn a_full_ring_looks_full<T, P, C>(
    producer: Producer,
    consumer: Consumer,
    ring: RingBuffer<T, P, C>,
    after: Producer,
    ring_after: RingBuffer<T, P, C>,
    value: T,
    r: Result<(), T>,
)
    requires
        producer.inv(&ring),
        try_pushed(producer, ring, after, ring_after, value, r),
    ensures
        producer.looks_full() == (producer.core.known_lag() == ring.cap()),
        consumer.inv(&ring) && consumer.pending(&ring).len() == ring.cap()
            ==> producer.looks_full(),
        !producer.looks_full() ==> r is Ok,
{
    crate::gate::a_full_ring_looks_full(producer.core, consumer.core, ring.gate@);
}

/// A consumer that takes one message of a whole ring of them, and knows of all,
/// leaves room: where everybody else does, the producer can go on.
pub proof fn a_pop_from_a_full_ring_leaves_room<T, P, C>(
    consumer: Consumer,
    ring: RingBuffer<T, P, C>,
    after: Consumer,
    ring_after: RingBuffer<T, P, C>,
)
    requires
        consumer.inv(&ring),
        consumer.pending(&ring).len() == ring.cap(),
        consumer.core.write_cache == ring.gate.tail || consumer.core.write_cache
            == consumer.core.read_cursor,
        consumer.next(&after, consumer.looked_up(&ring)),
        moved(ring, ring_after, consumer, after),
        forall|k: int|
            0 <= k < ring.gate.registry@.len() && k != consumer.core.slot.at() && (
            #[trigger] ring.gate.registry@[k]).active && ring.gate.registry@[k].cursor != u64::MAX
                ==> ring.gate.tail - ring.gate.registry@[k].cursor < ring.cap(),
    ensures
        forall|k: int|
            0 <= k < ring_after.gate.registry@.len() && (
            #[trigger] ring_after.gate.registry@[k]).active && ring_after.gate.registry@[k].cursor
                != u64::MAX ==> ring_after.gate.tail - ring_after.gate.registry@[k].cursor
                < ring.cap(),
        ring_after.gate.registry@[consumer.core.slot.at()].cursor == consumer.core.read_cursor + 1,
        ring_after.has_room(),
{
    let k = consumer.core.slot.at();
    assert forall|j: int|
        0 <= j < ring_after.gate.registry@.len() && (
        #[trigger] ring_after.gate.registry@[j]).active && ring_after.gate.registry@[j].cursor
            != u64::MAX implies ring_after.gate.tail - ring_after.gate.registry@[j].cursor
        < ring.cap() by {
        if j != k {
            assert(ring.gate.registry@[j] == ring_after.gate.registry@[j]);
        }
    }
}

/// The producer is told of a consumer's progress in time, and not more often than
/// need be. Once nothing known is left to read, the slot says so; what it does
/// not say is less than an eighth of the ring and less than 64 messages; and a
/// message that is taken from the middle of a batch is not told at once.
pub proof fn a_pop_is_told_in_time<T, P, C>(
    consumer: Consumer,
    ring: RingBuffer<T, P, C>,
    after: Consumer,
    ring_after: RingBuffer<T, P, C>,
    cache: u64,
)
    requires
        consumer.inv(&ring),
        consumer.core.read_cursor < cache <= ring.gate.tail,
        consumer.next(&after, cache),
        moved(ring, ring_after, consumer, after),
    ensures
        ({
            let told = ring_after.gate.registry@[consumer.core.slot.at()].cursor;
            let before = ring.gate.registry@[consumer.core.slot.at()].cursor;
            let read = consumer.core.read_cursor + 1;
            let cap = ring.cap();
            &&& after.core.read_cursor == read
            &&& after.core.write_cache == cache
            &&& told <= read
            &&& read == cache ==> told == read
            &&& read - told < 64
            &&& read - told == 0 || 8 * (read - told) < cap
            &&& read < cache && cache - consumer.core.read_cursor < cap && read - before < 64 && 8 * (
            read - before + 1) <= cap ==> told == before
        }),
{
    let cap = ring.cap();
    a_batch_is_an_eighth(cap, 64);
}

/// A push is refused, and the value given back, exactly where some registered
/// consumer has a whole ring to catch up on.
pub proof fn a_push_needs_room_and_nothing_else<T, P, C>(
    producer: Producer,
    ring: RingBuffer<T, P, C>,
    after: Producer,
    ring_after: RingBuffer<T, P, C>,
    value: T,
    r: Result<(), T>,
)
    requires
        producer.inv(&ring),
        try_pushed(producer, ring, after, ring_after, value, r),
    ensures
        r is Ok <==> forall|k: int|
            0 <= k < ring.gate.registry@.len() && (#[trigger] ring.gate.registry@[k]).active
                && ring.gate.registry@[k].cursor != u64::MAX ==> ring.gate.tail
                - ring.gate.registry@[k].cursor < ring.cap(),
        r is Ok ==> ring_after.gate.tail == ring.gate.tail + 1,
        r matches Err(v) ==> v == value && ring_after == ring,
{
    let gate = ring.gate@;
    if ring.has_room() {
        assert forall|k: int|
            0 <= k < ring.gate.registry@.len() && (#[trigger] ring.gate.registry@[k]).active
                && ring.gate.registry@[k].cursor != u64::MAX implies ring.gate.tail
            - ring.gate.registry@[k].cursor < ring.cap() by {
            assert(holds_back(gate.slots[k]));
        }
    } else {
        let k = choose|k: int|
            0 <= k < gate.slots.len() && holds_back(#[trigger] gate.slots[k]) && gate.tail + 1
                - gate.slots[k].cursor > ring.cap();
        assert(ring.gate.registry@[k].active);
    }
}

/// A drained batch is everything that is pending, up to an eighth of the ring,
/// at least one message and at most 64.
pub proof fn a_drained_batch_is_an_eighth(pending: int, capacity: int)
    requires
        0 <= pending,
        1 <= capacity,
    ensures
        0 <= drained(pending, capacity) <= pending,
        pending > 0 ==> drained(pending, capacity) > 0,
        drained(pending, capacity) <= 64,
        drained(pending, capacity) <= 1 || 8 * drained(pending, capacity) <= capacity,
        drained(pending, capacity) == pending || drained(pending, capacity) == 64 || 8 * (drained(
            pending,
            capacity,
        ) + 1) > capacity,
{
    a_batch_is_an_eighth(capacity, 64);
}

/// A new ring, of which its producer knows that nobody lags behind, has room,
/// and its consumer is handed the first message first.
pub proof fn a_new_ring_hands_out_the_first_push<T, P, C>(
    ring: RingBuffer<T, P, C>,
    producer: Producer,
    consumer: Consumer,
    ring_after: RingBuffer<T, P, C>,
    value: T,
)
    requires
        producer.inv(&ring),
        producer.core.known_lag() == 0,
        consumer.inv(&ring),
        consumer.pending(&ring).len() == 0,
        pushed(ring, ring_after, value),
        ring_after.inv(),
    ensures
        consumer.core.read_cursor == ring.gate.tail,
        producer.core.next_seq == ring.gate.tail,
        ring.has_room(),
        consumer.pending(&ring_after) == seq![value],
{
    assert forall|k: int| 0 <= k < ring.gate@.slots.len() && holds_back(
        #[trigger] ring.gate@.slots[k],
    ) implies ring.gate@.tail + 1 - ring.gate@.slots[k].cursor <= ring.cap() by {
        assert(producer.core.bounded(k, ring.gate@.slots[k].cursor));
    }
    a_push_reaches_every_consumer(producer, consumer, ring, ring_after, value);
    assert(consumer.pending(&ring).push(value) =~= seq![value]);
}

/// A consumer joins exactly while the producer is there. It is handed nothing of
/// what was published before, and counts as one more.
pub proof fn joining_needs_a_producer<T, P, C>(
    before: RingBuffer<T, P, C>,
    after: RingBuffer<T, P, C>,
    r: Result<Consumer, SubscribeError>,
)
    requires
        before.inv(),
        subscribed(before, after, r),
    ensures
        r is Ok <==> !before.gate.closed,
        r matches Err(e) ==> e == SubscribeError::Closed && after == before,
        r matches Ok(joiner) ==> {
            &&& joiner.core.read_cursor == before.gate.tail
            &&& joiner.pending(&after).len() == 0
            &&& after.gate.tail == before.gate.tail
            &&& after.gate.registry@[joiner.core.slot.at()].active
            &&& after.gate.registry@[joiner.core.slot.at()].cursor == before.gate.tail
            &&& active_in(after.gate.registry@) == active_in(before.gate.registry@) + 1
        },
{
    if r is Ok {
        joining_and_leaving_are_counted(
            before.gate@,
            after.gate@,
            r->Ok_0.core.slot.at(),
            after.gate@,
            -1,
        );
    }
}

} // verus!
