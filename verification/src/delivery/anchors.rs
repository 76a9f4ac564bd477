//! The anchored ring delivers every message to every anchor.

use crate::anchored::{
    a_join_disturbs_nobody, a_push_reaches_every_anchor, an_anchor_disturbs_nobody,
    closing_takes_nothing_away, looked, moved, pushed, subscribed, Anchor, Observer, Producer,
    RingBuffer, WriteSlot,
};
use crate::broadcast::NoUninit;
use crate::delivery::{follows, nothing_is_lost, sent, taken, Step};
use crate::gate::{a_grant_leaves_room, holds_back, stored, Gate};
use crate::registry::GateSlot;
use vstd::prelude::*;

verus! {

/// An anchored ring, its producer, and one of its anchors.
pub struct Moment<T, P, C> {
    pub ring: RingBuffer<T, P, C>,
    pub producer: Producer,
    pub anchor: Anchor,
}

/// A call on an anchored ring.
pub enum Event<T> {
    /// The producer looks for room.
    Ask,
    /// The producer enqueues a message.
    Push(T),
    /// The producer publishes the slot that it claimed.
    Commit { claim: WriteSlot, value: T },
    /// The producer leaves.
    Close,
    /// The anchor looks for messages.
    Look,
    /// The anchor takes its oldest messages, or publishes its progress.
    Take(nat),
    /// Another anchor takes messages, publishes its progress or leaves.
    Elsewhere { mover: Anchor, slot: GateSlot },
    /// Another anchor joins.
    Join { joiner: Anchor },
}

impl<T: NoUninit, P, C> Moment<T, P, C> {
    /// Producer and anchor belong to the ring.
    pub open spec fn inv(self) -> bool {
        self.producer.inv(&self.ring) && self.anchor.inv(&self.ring)
    }

    /// The messages that the anchor has not taken.
    pub open spec fn pending(self) -> Seq<T> {
        self.anchor.pending(&self.ring)
    }

    /// `after` is what a call leaves behind, as its contract says.
    pub open spec fn next(self, after: Self, event: Event<T>) -> bool {
        match event {
            Event::Ask => {
                &&& after.ring == self.ring
                &&& after.anchor == self.anchor
                &&& after.producer.inv(&after.ring)
            },
            Event::Push(value) => {
                &&& self.ring.has_room()
                &&& pushed(self.ring, after.ring, value)
                &&& after.anchor == self.anchor
                &&& after.producer.inv(&after.ring)
            },
            Event::Commit { claim, value } => {
                &&& claim.claims(&self.producer, &self.ring)
                &&& pushed(self.ring, after.ring, value)
                &&& after.anchor == self.anchor
                &&& after.producer.inv(&after.ring)
            },
            Event::Close => {
                &&& after.ring == (RingBuffer {
                    gate: Gate { closed: true, ..self.ring.gate },
                    ..self.ring
                })
                &&& after.anchor == self.anchor
                &&& after.producer == self.producer
            },
            Event::Look => {
                &&& after.ring == self.ring
                &&& looked(self.ring, self.anchor, after.anchor)
                &&& after.anchor.inv(&after.ring)
                &&& after.producer == self.producer
            },
            Event::Take(n) => {
                &&& moved(self.ring, after.ring, self.anchor, after.anchor)
                &&& n <= self.pending().len()
                &&& after.pending() == self.pending().skip(n as int)
                &&& after.anchor.inv(&after.ring)
                &&& after.producer == self.producer
            },
            Event::Elsewhere { mover, slot } => {
                &&& mover.inv(&self.ring)
                &&& mover.core.slot.at() != self.anchor.core.slot.at()
                &&& after.ring == (RingBuffer { gate: after.ring.gate, ..self.ring })
                &&& stored(self.ring.gate@, after.ring.gate@, mover.core.slot.at(), slot)
                &&& holds_back(slot) ==> mover.core.published <= slot.cursor
                    <= self.ring.gate.tail
                &&& after.anchor == self.anchor
                &&& after.producer == self.producer
            },
            Event::Join { joiner } => {
                &&& subscribed(self.ring, after.ring, Ok(joiner))
                &&& after.anchor == self.anchor
                &&& after.producer == self.producer
            },
        }
    }
}

impl<T> Event<T> {
    /// What the call does to the messages that the anchor has pending.
    pub open spec fn step(self) -> Step<T> {
        match self {
            Event::Push(value) => Step::Sent(value),
            Event::Commit { claim, value } => Step::Sent(value),
            Event::Take(n) => Step::Taken(n),
            _ => Step::Quiet,
        }
    }
}

/// One call keeps producer and anchor in the ring, and does to the anchor's
/// pending messages what its kind says.
pub proof fn a_call_delivers<T: NoUninit, P, C>(
    before: Moment<T, P, C>,
    after: Moment<T, P, C>,
    event: Event<T>,
)
    requires
        before.inv(),
        before.next(after, event),
    ensures
        after.inv(),
        follows(before.pending(), after.pending(), event.step()),
{
    match event {
        Event::Ask => {},
        Event::Push(value) => {
            a_push_reaches_every_anchor(
                before.producer,
                before.anchor,
                before.ring,
                after.ring,
                value,
            );
        },
        Event::Commit { claim, value } => {
            a_grant_leaves_room(before.producer.core, before.ring.gate@, 1);
            a_push_reaches_every_anchor(
                before.producer,
                before.anchor,
                before.ring,
                after.ring,
                value,
            );
        },
        Event::Close => {
            closing_takes_nothing_away(before.producer, before.anchor, before.ring, after.ring);
        },
        Event::Look => {
            assert(after.pending() =~= before.pending());
        },
        Event::Take(n) => {
            an_anchor_disturbs_nobody(
                before.producer,
                before.anchor,
                before.anchor,
                arbitrary::<Observer<()>>(),
                before.ring,
                after.ring,
                GateSlot { active: true, cursor: after.anchor.core.published },
            );
        },
        Event::Elsewhere { mover, slot } => {
            an_anchor_disturbs_nobody(
                before.producer,
                mover,
                before.anchor,
                arbitrary::<Observer<()>>(),
                before.ring,
                after.ring,
                slot,
            );
        },
        Event::Join { joiner } => {
            a_join_disturbs_nobody(
                before.producer,
                before.anchor,
                arbitrary::<Observer<()>>(),
                joiner,
                before.ring,
                after.ring,
            );
        },
    }
}

/// An anchor is handed every message that is published after it joined, once,
/// in order, whatever the producer and other consumers do in between.
pub proof fn every_message_is_delivered<T: NoUninit, P, C>(
    moments: Seq<Moment<T, P, C>>,
    events: Seq<Event<T>>,
)
    requires
        moments.len() == events.len() + 1,
        moments[0].inv(),
        forall|i: int|
            0 <= i < events.len() ==> moments[i].next(moments[i + 1], #[trigger] events[i]),
    ensures
        moments.last().inv(),
        ({
            let pending = moments.map_values(|m: Moment<T, P, C>| m.pending());
            let steps = events.map_values(|e: Event<T>| e.step());
            taken(pending, steps) + moments.last().pending() == moments[0].pending() + sent(steps)
        }),
{
    let pending = moments.map_values(|m: Moment<T, P, C>| m.pending());
    let steps = events.map_values(|e: Event<T>| e.step());
    assert forall|i: int| 0 <= i < steps.len() implies follows(
        pending[i],
        pending[i + 1],
        #[trigger] steps[i],
    ) by {
        lemma_run(moments, events, i);
        assert(moments[i].next(moments[i + 1], events[i]));
        a_call_delivers(moments[i], moments[i + 1], events[i]);
    }
    lemma_run(moments, events, events.len() as int);
    nothing_is_lost(pending, steps);
}

proof fn lemma_run<T: NoUninit, P, C>(moments: Seq<Moment<T, P, C>>, events: Seq<Event<T>>, i: int)
    requires
        moments.len() == events.len() + 1,
        moments[0].inv(),
        forall|i: int|
            0 <= i < events.len() ==> moments[i].next(moments[i + 1], #[trigger] events[i]),
        0 <= i <= events.len(),
    ensures
        moments[i].inv(),
    decreases i,
{
    if i > 0 {
        lemma_run(moments, events, i - 1);
        assert(moments[i - 1].next(moments[i], events[i - 1]));
        a_call_delivers(moments[i - 1], moments[i], events[i - 1]);
    }
}

} // verus!
