//! A lossy reader of elements is handed or told of every message.
//!
//! The slots, the published tail and one reader are looked at together with
//! the log of all messages that were ever written. The lossy ring's consumers
//! and the anchored ring's observers are such readers.

use crate::anchored;
use crate::arith::MAX_CURSOR;
use crate::broadcast::{self, NoUninit};
use crate::seqlock::{
    a_message_is_kept_or_gone, holds, laid_out, lemma_written, message, with_message, Slot,
    SlotReader,
};
use vstd::prelude::*;

verus! {

/// The slots of a ring, one of its readers, and all messages ever written.
pub struct Moment<T> {
    pub slots: Seq<Slot<T>>,
    /// The published tail.
    pub tail: u64,
    pub reader: SlotReader,
    pub log: Seq<T>,
}

/// A call of the producer or of the reader.
pub enum Event<T> {
    /// The producer writes a message, and publishes its tail or leaves it.
    Write(T),
    /// The producer publishes its tail.
    Publish,
    /// The reader looks at the tail.
    Look,
    /// The reader is handed a message.
    Read(T),
    /// The reader is told how many messages it missed.
    Lag(u64),
    /// The reader skips what it has not read.
    Skip(u64),
}

impl<T> Moment<T> {
    /// The slots hold the last lap of the log, and whatever a slot holds is
    /// the message of the log that its generation names.
    pub open spec fn inv(self) -> bool {
        &&& laid_out(self.slots, self.log.len() as int)
        &&& self.tail <= self.log.len() <= MAX_CURSOR
        &&& self.reader.inv(self.tail)
        &&& self.reader.cap() == self.slots.len()
        &&& forall|s: int|
            0 <= s < self.log.len() && holds(self.slots, s) ==> #[trigger] message(self.slots, s)
                == self.log[s]
    }

    /// `after` is what a call leaves behind.
    pub open spec fn next(self, after: Self, event: Event<T>) -> bool {
        match event {
            Event::Write(value) => {
                &&& self.log.len() < MAX_CURSOR
                &&& after.slots == with_message(self.slots, self.log.len() as int, value)
                &&& after.log == self.log.push(value)
                &&& self.tail <= after.tail <= after.log.len()
                &&& after.reader == self.reader
            },
            Event::Publish => {
                &&& after == (Moment { tail: after.tail, ..self })
                &&& self.tail <= after.tail <= self.log.len()
            },
            Event::Look => {
                &&& after == (Moment {
                    reader: SlotReader { tail_cache: after.reader.tail_cache, ..self.reader },
                    ..self
                })
                &&& after.reader.tail_cache <= self.tail
            },
            Event::Read(value) => {
                &&& self.reader.pos < self.tail
                &&& holds(self.slots, self.reader.pos as int)
                &&& value == message(self.slots, self.reader.pos as int)
                &&& after == (Moment {
                    reader: SlotReader {
                        pos: (self.reader.pos + 1) as u64,
                        tail_cache: self.reader.looked_up(self.tail),
                        ..self.reader
                    },
                    ..self
                })
            },
            Event::Lag(missed) => {
                &&& self.reader.pos < self.tail
                &&& !holds(self.slots, self.reader.pos as int)
                &&& after == (Moment {
                    reader: SlotReader {
                        pos: self.reader.resumed(self.tail),
                        tail_cache: self.tail,
                        ..self.reader
                    },
                    ..self
                })
                &&& self.reader.pos + missed == after.reader.pos
            },
            Event::Skip(skipped) => {
                &&& after == (Moment {
                    reader: SlotReader { pos: self.tail, tail_cache: self.tail, ..self.reader },
                    ..self
                })
                &&& self.reader.pos + skipped == self.tail
            },
        }
    }
}

impl<T> Event<T> {
    /// How many messages the call takes off the reader's list: one that is
    /// handed over, or those that the reader is told it missed or skipped.
    pub open spec fn accounts_for(self) -> int {
        match self {
            Event::Read(_) => 1,
            Event::Lag(missed) => missed as int,
            Event::Skip(skipped) => skipped as int,
            _ => 0,
        }
    }
}

/// The messages that a run takes off the reader's list.
pub open spec fn accounted<T>(events: Seq<Event<T>>) -> int
    decreases events.len(),
{
    if events.len() == 0 {
        0
    } else {
        accounted(events.drop_last()) + events.last().accounts_for()
    }
}

/// The messages written in a run.
pub open spec fn written<T>(events: Seq<Event<T>>) -> Seq<T>
    decreases events.len(),
{
    if events.len() == 0 {
        Seq::empty()
    } else {
        let earlier = written(events.drop_last());
        match events.last() {
            Event::Write(value) => earlier.push(value),
            _ => earlier,
        }
    }
}

/// One call keeps the log; it moves the reader by exactly what it hands over
/// or reports, and what it hands over is the message of the log at the
/// reader's place.
pub proof fn a_call_is_exact<T>(before: Moment<T>, after: Moment<T>, event: Event<T>)
    requires
        before.inv(),
        before.next(after, event),
    ensures
        after.inv(),
        after.reader.pos == before.reader.pos + event.accounts_for(),
        after.log == (match event {
            Event::Write(value) => before.log.push(value),
            _ => before.log,
        }),
        event matches Event::Read(value) ==> value == before.log[before.reader.pos as int],
{
    match event {
        Event::Write(value) => {
            let n = before.log.len() as int;
            lemma_written(before.slots, n, value);
            assert forall|s: int| 0 <= s < after.log.len() && holds(after.slots, s) implies
                #[trigger] message(after.slots, s) == after.log[s] by {
                if s < n {
                    a_message_is_kept_or_gone(before.slots, n, value, s);
                } else {
                    vstd::arithmetic::div_mod::lemma_mod_bound(s, before.slots.len() as int);
                }
            }
        },
        Event::Lag(missed) => {
            assert(before.reader.resumed(before.tail) <= before.tail);
        },
        _ => {},
    }
}

/// A run: each call starts where the one before it ended.
pub open spec fn run<T>(moments: Seq<Moment<T>>, events: Seq<Event<T>>) -> bool {
    &&& moments.len() == events.len() + 1
    &&& forall|i: int|
        0 <= i < events.len() ==> moments[i].next(moments[i + 1], #[trigger] events[i])
}

/// Over a run of any length a lossy reader loses nothing unnoticed: it has
/// moved by exactly as many messages as it was handed, told that it missed,
/// or skipped; and every message that it was handed is the one that was
/// written under that number, whatever was overwritten meanwhile.
pub proof fn every_message_is_read_or_counted<T>(moments: Seq<Moment<T>>, events: Seq<Event<T>>)
    requires
        run(moments, events),
        moments[0].inv(),
    ensures
        moments.last().inv(),
        moments.last().reader.pos == moments[0].reader.pos + accounted(events),
        moments.last().log == moments[0].log + written(events),
        forall|i: int|
            0 <= i < events.len() ==> (#[trigger] events[i] matches Event::Read(value) ==> value
                == moments.last().log[moments[i].reader.pos as int]),
{
    let n = events.len() as int;
    lemma_run(moments, events, n);
    assert(events.take(n) =~= events);
    assert forall|i: int| 0 <= i < n && #[trigger] events[i] is Read implies events[i]->Read_0
        == moments.last().log[moments[i].reader.pos as int] by {
        lemma_run(moments, events, i);
        assert(moments[i].next(moments[i + 1], events[i]));
        a_call_is_exact(moments[i], moments[i + 1], events[i]);
        lemma_log_grows(moments, events, i, n);
    }
}

/// The beginning of a run is a run.
proof fn lemma_run<T>(moments: Seq<Moment<T>>, events: Seq<Event<T>>, i: int)
    requires
        run(moments, events),
        moments[0].inv(),
        0 <= i <= events.len(),
    ensures
        moments[i].inv(),
        moments[i].reader.pos == moments[0].reader.pos + accounted(events.take(i)),
        moments[i].log == moments[0].log + written(events.take(i)),
    decreases i,
{
    if i > 0 {
        lemma_run(moments, events, i - 1);
        assert(moments[i - 1].next(moments[i], events[i - 1]));
        a_call_is_exact(moments[i - 1], moments[i], events[i - 1]);
        assert(events.take(i).drop_last() =~= events.take(i - 1));
    }
    assert(moments[i].log =~= moments[0].log + written(events.take(i)));
}

/// The log grows at its end.
proof fn lemma_log_grows<T>(moments: Seq<Moment<T>>, events: Seq<Event<T>>, i: int, j: int)
    requires
        run(moments, events),
        moments[0].inv(),
        0 <= i <= j <= events.len(),
    ensures
        moments[i].log.len() <= moments[j].log.len(),
        forall|k: int|
            0 <= k < moments[i].log.len() ==> #[trigger] moments[j].log[k] == moments[i].log[k],
    decreases j,
{
    if i < j {
        lemma_log_grows(moments, events, i, j - 1);
        lemma_run(moments, events, j - 1);
        assert(moments[j - 1].next(moments[j], events[j - 1]));
        a_call_is_exact(moments[j - 1], moments[j], events[j - 1]);
    }
}

/// A lossy ring and one of its readers.
pub open spec fn of_broadcast<T: NoUninit>(
    ring: broadcast::RingBuffer<T>,
    reader: SlotReader,
    log: Seq<T>,
) -> Moment<T> {
    Moment { slots: ring.slots@, tail: ring.tail, reader, log }
}

/// What the calls on a lossy ring leave behind, as their contracts say, is
/// what the events leave behind: a push; a flush, a change of the batch and the
/// producer's end; a message, a loss, an idle look and a skip. A consumer that
/// subscribes begins a run of its own.
pub proof fn a_lossy_ring_is_exact<T: NoUninit>(
    ring: broadcast::RingBuffer<T>,
    after: broadcast::RingBuffer<T>,
    producer: broadcast::Producer,
    next: broadcast::Producer,
    reader: SlotReader,
    moved: SlotReader,
    log: Seq<T>,
    value: T,
    missed: u64,
)
    requires
        of_broadcast(ring, reader, log).inv(),
        producer.inv(&ring),
        producer.next_seq == log.len(),
    ensures
        producer.next_seq < MAX_CURSOR && broadcast::pushed(producer, ring, next, after, value)
            ==> of_broadcast(ring, reader, log).next(
            of_broadcast(after, reader, log.push(value)),
            Event::Write(value),
        ) && next.next_seq == log.push(value).len(),
        after == (broadcast::RingBuffer { tail: after.tail, closed: after.closed, ..ring }) && (
        after.tail == ring.tail || after.tail == producer.next_seq) ==> of_broadcast(
            ring,
            reader,
            log,
        ).next(of_broadcast(after, reader, log), Event::Publish),
        broadcast::read(ring, reader, moved, value) ==> of_broadcast(ring, reader, log).next(
            of_broadcast(ring, moved, log),
            Event::Read(value),
        ),
        broadcast::lapped(ring, reader, moved, missed) ==> of_broadcast(ring, reader, log).next(
            of_broadcast(ring, moved, log),
            Event::Lag(missed),
        ),
        broadcast::idle(ring, reader, moved) ==> of_broadcast(ring, reader, log).next(
            of_broadcast(ring, moved, log),
            Event::Look,
        ),
        moved == (SlotReader { pos: ring.tail, tail_cache: ring.tail, ..reader }) && missed
            == ring.tail - reader.pos ==> of_broadcast(ring, reader, log).next(
            of_broadcast(ring, moved, log),
            Event::Skip(missed),
        ),
        broadcast::subscribed(&ring, moved) ==> of_broadcast(ring, moved, log).inv(),
{
}

/// In a fresh lossy ring nothing was written.
pub proof fn a_fresh_lossy_ring_has_no_log<T: NoUninit>(
    ring: broadcast::RingBuffer<T>,
    producer: broadcast::Producer,
    reader: SlotReader,
)
    requires
        broadcast::fresh(ring, producer, reader),
    ensures
        of_broadcast(ring, reader, Seq::empty()).inv(),
        producer.next_seq == Seq::<T>::empty().len(),
{
}

/// An anchored ring and one of its observers.
pub open spec fn of_anchored<T: NoUninit, P, C>(
    ring: anchored::RingBuffer<T, P, C>,
    reader: SlotReader,
    log: Seq<T>,
) -> Moment<T> {
    Moment { slots: ring.slots@, tail: ring.gate.tail, reader, log }
}

/// What the calls on an anchored ring leave behind, as their contracts say, is
/// what the events leave behind: a push; an observer's message, loss, idle look
/// and skip. What anchors do changes nothing, and an observer that subscribes
/// begins a run of its own.
pub proof fn an_anchored_ring_is_exact<T: NoUninit, P, C>(
    ring: anchored::RingBuffer<T, P, C>,
    after: anchored::RingBuffer<T, P, C>,
    reader: SlotReader,
    moved: SlotReader,
    log: Seq<T>,
    value: T,
    missed: u64,
)
    requires
        of_anchored(ring, reader, log).inv(),
        ring.inv(),
        ring.gate.tail == log.len(),
    ensures
        ring.gate.tail < MAX_CURSOR && anchored::pushed(ring, after, value) ==> of_anchored(
            ring,
            reader,
            log,
        ).next(of_anchored(after, reader, log.push(value)), Event::Write(value))
            && after.gate.tail == log.push(value).len(),
        after == (anchored::RingBuffer { gate: after.gate, ..ring }) && after.gate.tail
            == ring.gate.tail ==> of_anchored(after, reader, log) == of_anchored(ring, reader, log),
        anchored::seen(ring, reader, moved, value) ==> of_anchored(ring, reader, log).next(
            of_anchored(ring, moved, log),
            Event::Read(value),
        ),
        anchored::lapped(ring, reader, moved, missed) ==> of_anchored(ring, reader, log).next(
            of_anchored(ring, moved, log),
            Event::Lag(missed),
        ),
        anchored::idle(ring, reader, moved) ==> of_anchored(ring, reader, log).next(
            of_anchored(ring, moved, log),
            Event::Look,
        ),
        moved == (SlotReader { pos: ring.gate.tail, tail_cache: ring.gate.tail, ..reader })
            && missed == ring.gate.tail - reader.pos ==> of_anchored(ring, reader, log).next(
            of_anchored(ring, moved, log),
            Event::Skip(missed),
        ),
        anchored::observing(&ring, moved) ==> of_anchored(ring, moved, log).inv(),
{
}

/// In an anchored ring to which nothing was pushed nothing was written.
pub proof fn a_fresh_anchored_ring_has_no_log<T: NoUninit, P, C>(
    ring: anchored::RingBuffer<T, P, C>,
    reader: SlotReader,
)
    requires
        ring.inv(),
        ring.gate.tail == 0,
        anchored::observing(&ring, reader),
    ensures
        of_anchored(ring, reader, Seq::empty()).inv(),
{
}

} // verus!
