//! The anchored byte ring delivers every message to every anchor.

use crate::anchored_bytes::{
    a_join_disturbs_nobody, a_push_reaches_every_anchor, an_anchor_disturbs_nobody,
    closing_takes_nothing_away, moved, pushed, subscribed, BytesAnchor, BytesObserver,
    BytesProducer, BytesRingBuffer, WriteSlot,
};
use crate::frames::max_len;
use crate::delivery::{follows, nothing_is_lost, sent, taken, Step};
use crate::gate::{a_grant_leaves_room, holds_back, stored, Gate};
use crate::registry::GateSlot;
use vstd::prelude::*;

verus! {

/// An anchored byte ring, its producer, and one of its anchors.
pub struct Moment<P, C> {
    pub ring: BytesRingBuffer<P, C>,
    pub producer: BytesProducer,
    pub anchor: BytesAnchor,
}

/// A call on an anchored byte ring.
pub enum Event {
    /// The producer looks for room.
    Ask,
    /// The producer enqueues a message.
    Push(Seq<u8>),
    /// The producer publishes the slot that it claimed.
    Commit { claim: WriteSlot, msg: Seq<u8> },
    /// The producer leaves.
    Close,
    /// The anchor looks for messages.
    Look,
    /// The anchor takes its oldest messages, or publishes its progress.
    Take(nat),
    /// Another anchor takes messages, publishes its progress or leaves.
    Elsewhere { mover: BytesAnchor, slot: GateSlot },
    /// Another anchor joins.
    Join { joiner: BytesAnchor },
}

impl<P, C> Moment<P, C> {
    /// Producer and anchor belong to the ring.
    pub open spec fn inv(self) -> bool {
        self.producer.inv(&self.ring) && self.anchor.inv(&self.ring)
    }

    /// The messages that the anchor has not taken.
    pub open spec fn pending(self) -> Seq<Seq<u8>> {
        self.anchor.pending(&self.ring)
    }

    /// `after` is what a call leaves behind, as its contract says.
    pub open spec fn next(self, after: Self, event: Event) -> bool {
        match event {
            Event::Ask => {
                &&& after.ring == (BytesRingBuffer { starving: after.ring.starving, ..self.ring })
                &&& after.anchor == self.anchor
                &&& after.producer.inv(&after.ring)
            },
            Event::Push(msg) => {
                &&& msg.len() <= max_len(self.ring.cap())
                &&& self.ring.has_room(msg.len() as int)
                &&& pushed(self.ring, after.ring, msg, self.producer.intent_floor)
                &&& after.anchor == self.anchor
                &&& after.producer.inv(&after.ring)
            },
            Event::Commit { claim, msg } => {
                &&& claim.claims(&self.producer, &self.ring)
                &&& msg.len() == claim.len
                &&& pushed(self.ring, after.ring, msg, self.producer.intent_floor)
                &&& after.anchor == self.anchor
                &&& after.producer.inv(&after.ring)
            },
            Event::Close => {
                &&& after.ring == (BytesRingBuffer {
                    gate: Gate { closed: true, ..self.ring.gate },
                    ..self.ring
                })
                &&& after.anchor == self.anchor
                &&& after.producer == self.producer
            },
            Event::Look => {
                &&& after.ring == self.ring
                &&& after.anchor.core.slot == self.anchor.core.slot
                &&& after.anchor.inv(&after.ring)
                &&& after.pending() == self.pending()
                &&& after.producer == self.producer
            },
            Event::Take(n) => {
                &&& moved(self.ring, after.ring, self.anchor, after.anchor)
                &&& n <= self.pending().len()
                &&& after.pending() == self.pending().skip(n as int)
                &&& after.anchor.inv(&after.ring)
                &&& after.producer == self.producer
            },
            Event::Elsewhere { mover, slot } => {
                &&& mover.inv(&self.ring)
                &&& mover.core.slot.at() != self.anchor.core.slot.at()
                &&& after.ring == (BytesRingBuffer { gate: after.ring.gate, ..self.ring })
                &&& stored(self.ring.gate@, after.ring.gate@, mover.core.slot.at(), slot)
                &&& holds_back(slot) ==> mover.core.published <= slot.cursor
                    <= self.ring.gate.tail
                &&& after.anchor == self.anchor
                &&& after.producer == self.producer
            },
            Event::Join { joiner } => {
                &&& subscribed(self.ring, after.ring, Ok(joiner))
                &&& after.anchor == self.anchor
                &&& after.producer == self.producer
            },
        }
    }
}

impl Event {
    /// What the call does to the messages that the anchor has pending.
    pub open spec fn step(self) -> Step<Seq<u8>> {
        match self {
            Event::Push(msg) => Step::Sent(msg),
            Event::Commit { claim, msg } => Step::Sent(msg),
            Event::Take(n) => Step::Taken(n),
            _ => Step::Quiet,
        }
    }
}

/// One call keeps producer and anchor in the ring, and does to the anchor's
/// pending messages what its kind says.
pub proof fn a_call_delivers<P, C>(
    before: Moment<P, C>,
    after: Moment<P, C>,
    event: Event,
)
    requires
        before.inv(),
        before.next(after, event),
    ensures
        after.inv(),
        follows(before.pending(), after.pending(), event.step()),
{
    match event {
        Event::Ask => {},
        Event::Push(msg) => {
            a_push_reaches_every_anchor(
                before.producer,
                before.anchor,
                before.ring,
                after.ring,
                msg,
            );
        },
        Event::Commit { claim, msg } => {
            a_grant_leaves_room(
                before.producer.core,
                before.ring.gate@,
                before.ring.needed(msg.len() as int),
            );
            a_push_reaches_every_anchor(
                before.producer,
                before.anchor,
                before.ring,
                after.ring,
                msg,
            );
        },
        Event::Close => {
            closing_takes_nothing_away(before.producer, before.anchor, before.ring, after.ring);
        },
        Event::Look => {},
        Event::Take(n) => {
            an_anchor_disturbs_nobody(
                before.producer,
                before.anchor,
                before.anchor,
                arbitrary::<BytesObserver<()>>(),
                before.ring,
                after.ring,
                GateSlot { active: true, cursor: after.anchor.core.published },
            );
        },
        Event::Elsewhere { mover, slot } => {
            an_anchor_disturbs_nobody(
                before.producer,
                mover,
                before.anchor,
                arbitrary::<BytesObserver<()>>(),
                before.ring,
                after.ring,
                slot,
            );
        },
        Event::Join { joiner } => {
            a_join_disturbs_nobody(
                before.producer,
                before.anchor,
                arbitrary::<BytesObserver<()>>(),
                joiner,
                before.ring,
                after.ring,
            );
        },
    }
}

/// An anchor is handed every message that is published after it joined, once,
/// in order, whatever the producer and other consumers do in between.
pub proof fn every_message_is_delivered<P, C>(
    moments: Seq<Moment<P, C>>,
    events: Seq<Event>,
)
    requires
        moments.len() == events.len() + 1,
        moments[0].inv(),
        forall|i: int|
            0 <= i < events.len() ==> moments[i].next(moments[i + 1], #[trigger] events[i]),
    ensures
        moments.last().inv(),
        ({
            let pending = moments.map_values(|m: Moment<P, C>| m.pending());
            let steps = events.map_values(|e: Event| e.step());
            taken(pending, steps) + moments.last().pending() == moments[0].pending() + sent(steps)
        }),
{
    let pending = moments.map_values(|m: Moment<P, C>| m.pending());
    let steps = events.map_values(|e: Event| e.step());
    assert forall|i: int| 0 <= i < steps.len() implies follows(
        pending[i],
        pending[i + 1],
        #[trigger] steps[i],
    ) by {
        lemma_run(moments, events, i);
        assert(moments[i].next(moments[i + 1], events[i]));
        a_call_delivers(moments[i], moments[i + 1], events[i]);
    }
    lemma_run(moments, events, events.len() as int);
    nothing_is_lost(pending, steps);
}

proof fn lemma_run<P, C>(moments: Seq<Moment<P, C>>, events: Seq<Event>, i: int)
    requires
        moments.len() == events.len() + 1,
        moments[0].inv(),
        forall|i: int|
            0 <= i < events.len() ==> moments[i].next(moments[i + 1], #[trigger] events[i]),
        0 <= i <= events.len(),
    ensures
        moments[i].inv(),
    decreases i,
{
    if i > 0 {
        lemma_run(moments, events, i - 1);
        assert(moments[i - 1].next(moments[i], events[i - 1]));
        a_call_delivers(moments[i - 1], moments[i], events[i - 1]);
    }
}

} // verus!
