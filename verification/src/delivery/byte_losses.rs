//! A lossy reader of byte messages is handed or told of every byte.
//!
//! The bytes, the producer's counters and one reader are looked at together
//! with the log of all messages that were ever published and the reader's
//! place in it. The lossy byte ring's consumers and the anchored byte ring's
//! observers are such readers.

use crate::anchored_bytes;
use crate::arith::MAX_CURSOR;
use crate::broadcast_bytes::{
    self, advanced, lemma_log_after_push, lemma_reader_after_push, BytesProducer, BytesRingBuffer,
};
use crate::bytelog::{an_overrun_reader_recovers, in_window, log_inv, ByteReader, Frontier};
use crate::frames::{
    a_frame_round_trips, end_of, lemma_frame_fits, lemma_no_messages, max_len, messages,
    pad_for, with_frame,
};
use vstd::prelude::*;

verus! {

/// The bytes of a ring, one of its readers, all messages ever published, and
/// how many of them lie before the reader.
pub struct Moment {
    pub buf: Seq<u8>,
    pub frontier: Frontier,
    /// The producer declares no less than this.
    pub floor: u64,
    pub reader: ByteReader,
    pub log: Seq<Seq<u8>>,
    pub place: int,
}

/// A call of the producer or of the reader.
pub enum Event {
    /// The producer publishes a message.
    Write(Seq<u8>),
    /// The reader looks at the tail.
    Look,
    /// The reader is handed a message, whose frame has `span` bytes.
    Read { msg: Seq<u8>, span: int },
    /// The reader is told how many bytes it missed.
    Lag(u64),
    /// The reader skips what it has not read.
    Skip(u64),
}

/// The messages of the log from the last one on.
pub open spec fn last_of(log: Seq<Seq<u8>>) -> Seq<Seq<u8>> {
    log.skip(before_last(log))
}

/// The place of the last message.
pub open spec fn before_last(log: Seq<Seq<u8>>) -> int {
    if log.len() == 0 {
        0
    } else {
        log.len() - 1
    }
}

impl Moment {
    /// What the reader has pending is the rest of the log, unless it was
    /// overrun; the last record is the last message of the log.
    pub open spec fn inv(self) -> bool {
        &&& log_inv(self.buf, self.frontier)
        &&& self.floor <= self.frontier.intent
        &&& self.reader.inv(self.buf, self.frontier)
        &&& 0 <= self.place <= self.log.len()
        &&& messages(self.buf, self.frontier.latest as int, self.frontier.tail as int) == last_of(
            self.log,
        )
        &&& if self.in_window() {
            self.reader.pending(self.buf, self.frontier) == self.log.skip(self.place)
        } else {
            self.place <= before_last(self.log)
        }
    }

    /// The reader has not been overrun.
    pub open spec fn in_window(self) -> bool {
        in_window(self.frontier, self.reader.pos as int, self.reader.cap())
    }

    /// `after` is what a call leaves behind.
    pub open spec fn next(self, after: Self, event: Event) -> bool {
        match event {
            Event::Write(msg) => {
                &&& msg.len() <= max_len(self.buf.len() as int)
                &&& self.frontier.tail + self.buf.len() <= MAX_CURSOR
                &&& after == (Moment {
                    buf: with_frame(self.buf, self.frontier.tail as int, msg),
                    frontier: advanced(
                        self.frontier,
                        msg.len() as int,
                        self.buf.len() as int,
                        self.floor,
                    ),
                    log: self.log.push(msg),
                    ..self
                })
                &&& self.frontier.intent <= after.frontier.intent
            },
            Event::Look => {
                &&& after == (Moment {
                    reader: ByteReader { tail_cache: after.reader.tail_cache, ..self.reader },
                    ..self
                })
                &&& after.reader.tail_cache <= self.frontier.tail
            },
            Event::Read { msg, span } => {
                let pending = self.reader.pending(self.buf, self.frontier);
                &&& self.in_window()
                &&& pending.len() > 0
                &&& msg == pending[0]
                &&& span == end_of(self.buf, self.reader.pos as int) - self.reader.pos
                &&& after == (Moment { reader: after.reader, place: self.place + 1, ..self })
                &&& after.reader.pos == self.reader.pos + span
                &&& after.reader.inv(self.buf, self.frontier)
                &&& after.reader.cap() == self.reader.cap()
                &&& after.reader.pending(self.buf, self.frontier) == pending.drop_first()
            },
            Event::Lag(missed) => {
                &&& !self.in_window()
                &&& after == (Moment {
                    reader: ByteReader {
                        pos: self.reader.resumed(self.frontier),
                        tail_cache: self.frontier.tail,
                        ..self.reader
                    },
                    place: before_last(self.log),
                    ..self
                })
                &&& self.reader.pos + missed == after.reader.pos
            },
            Event::Skip(skipped) => {
                &&& after == (Moment {
                    reader: ByteReader {
                        pos: self.frontier.tail,
                        tail_cache: self.frontier.tail,
                        ..self.reader
                    },
                    place: self.log.len() as int,
                    ..self
                })
                &&& self.reader.pos + skipped == self.frontier.tail
            },
        }
    }
}

impl Event {
    /// How many bytes the call takes off the reader's list: a frame that is
    /// handed over, or what the reader is told it missed or skipped.
    pub open spec fn accounts_for(self) -> int {
        match self {
            Event::Read { msg, span } => span,
            Event::Lag(missed) => missed as int,
            Event::Skip(skipped) => skipped as int,
            _ => 0,
        }
    }
}

/// The bytes that a run takes off the reader's list.
pub open spec fn accounted(events: Seq<Event>) -> int
    decreases events.len(),
{
    if events.len() == 0 {
        0
    } else {
        accounted(events.drop_last()) + events.last().accounts_for()
    }
}

/// The messages published in a run.
pub open spec fn written(events: Seq<Event>) -> Seq<Seq<u8>>
    decreases events.len(),
{
    if events.len() == 0 {
        Seq::empty()
    } else {
        let earlier = written(events.drop_last());
        match events.last() {
            Event::Write(msg) => earlier.push(msg),
            _ => earlier,
        }
    }
}

/// One call keeps the log; it moves the reader by exactly the bytes that it
/// hands over or reports, and what it hands over is the message of the log at
/// the reader's place, which never goes back.
pub proof fn a_call_is_exact(before: Moment, after: Moment, event: Event)
    requires
        before.inv(),
        before.next(after, event),
    ensures
        after.inv(),
        after.reader.pos == before.reader.pos + event.accounts_for(),
        after.log == (match event {
            Event::Write(msg) => before.log.push(msg),
            _ => before.log,
        }),
        before.place <= after.place,
        event matches Event::Read { msg, .. } ==> before.place < after.place <= before.log.len()
            && msg == before.log[before.place],
{
    match event {
        Event::Write(msg) => {
            lemma_write(before, after, msg);
        },
        Event::Read { msg, span } => {
            assert(before.log.skip(before.place).drop_first() =~= before.log.skip(
                before.place + 1,
            ));
        },
        Event::Lag(missed) => {
            an_overrun_reader_recovers(before.buf, before.frontier, before.reader);
        },
        Event::Skip(skipped) => {
            lemma_no_messages(before.buf, before.frontier.tail as int);
            assert(before.log.skip(before.log.len() as int) =~= Seq::<Seq<u8>>::empty());
        },
        Event::Look => {},
    }
}

proof fn lemma_write(before: Moment, after: Moment, msg: Seq<u8>)
    requires
        before.inv(),
        before.next(after, Event::Write(msg)),
    ensures
        after.inv(),
{
    let cap = before.buf.len() as int;
    let next = before.frontier.tail as int;
    lemma_frame_fits(next, msg.len() as int, cap);
    lemma_log_after_push(before.buf, before.frontier, msg, after.frontier, before.floor);
    lemma_reader_after_push(before.buf, before.frontier, msg, after.frontier, before.reader);
    a_frame_round_trips(before.buf, next, msg);
    let start = next + pad_for(next, msg.len() as int, cap);
    lemma_no_messages(after.buf, after.frontier.tail as int);
    assert(messages(after.buf, start, after.frontier.tail as int) =~= seq![msg]);
    assert(last_of(after.log) =~= seq![msg]);
    if after.in_window() {
        assert(before.log.skip(before.place).push(msg) =~= after.log.skip(before.place));
    }
}

/// A run: each call starts where the one before it ended.
pub open spec fn run(moments: Seq<Moment>, events: Seq<Event>) -> bool {
    &&& moments.len() == events.len() + 1
    &&& forall|i: int|
        0 <= i < events.len() ==> moments[i].next(moments[i + 1], #[trigger] events[i])
}

/// Over a run of any length a lossy reader loses nothing unnoticed: it has
/// moved by exactly as many bytes as it was handed, told that it missed, or
/// skipped; and the messages that it was handed are messages that were
/// published, whole, in order, none of them twice.
pub proof fn every_byte_is_read_or_counted(moments: Seq<Moment>, events: Seq<Event>)
    requires
        run(moments, events),
        moments[0].inv(),
    ensures
        moments.last().inv(),
        moments.last().reader.pos == moments[0].reader.pos + accounted(events),
        moments.last().log == moments[0].log + written(events),
        forall|i: int|
            0 <= i < events.len() ==> (#[trigger] events[i] matches Event::Read { msg, .. } ==> {
                &&& 0 <= moments[i].place < moments.last().log.len()
                &&& msg == moments.last().log[moments[i].place]
                &&& moments[i].place < moments[i + 1].place
            }),
        forall|i: int, j: int|
            0 <= i <= j < moments.len() ==> (#[trigger] moments[i]).place <= (
            #[trigger] moments[j]).place,
{
    let n = events.len() as int;
    lemma_run(moments, events, n);
    assert(events.take(n) =~= events);
    assert forall|i: int| 0 <= i < n && #[trigger] events[i] is Read implies ({
        &&& 0 <= moments[i].place < moments.last().log.len()
        &&& events[i]->Read_msg == moments.last().log[moments[i].place]
        &&& moments[i].place < moments[i + 1].place
    }) by {
        lemma_run(moments, events, i);
        assert(moments[i].next(moments[i + 1], events[i]));
        a_call_is_exact(moments[i], moments[i + 1], events[i]);
        lemma_log_grows(moments, events, i, n);
    }
    assert forall|i: int, j: int| 0 <= i <= j < moments.len() implies (
    #[trigger] moments[i]).place <= (#[trigger] moments[j]).place by {
        lemma_log_grows(moments, events, i, j);
    }
}

/// The beginning of a run is a run.
proof fn lemma_run(moments: Seq<Moment>, events: Seq<Event>, i: int)
    requires
        run(moments, events),
        moments[0].inv(),
        0 <= i <= events.len(),
    ensures
        moments[i].inv(),
        moments[i].reader.pos == moments[0].reader.pos + accounted(events.take(i)),
        moments[i].log == moments[0].log + written(events.take(i)),
    decreases i,
{
    if i > 0 {
        lemma_run(moments, events, i - 1);
        assert(moments[i - 1].next(moments[i], events[i - 1]));
        a_call_is_exact(moments[i - 1], moments[i], events[i - 1]);
        assert(events.take(i).drop_last() =~= events.take(i - 1));
    }
    assert(moments[i].log =~= moments[0].log + written(events.take(i)));
}

/// The log grows at its end, and the reader's place in it never goes back.
proof fn lemma_log_grows(moments: Seq<Moment>, events: Seq<Event>, i: int, j: int)
    requires
        run(moments, events),
        moments[0].inv(),
        0 <= i <= j <= events.len(),
    ensures
        moments[i].place <= moments[j].place,
        moments[i].log.len() <= moments[j].log.len(),
        forall|k: int|
            0 <= k < moments[i].log.len() ==> #[trigger] moments[j].log[k] == moments[i].log[k],
    decreases j,
{
    if i < j {
        lemma_log_grows(moments, events, i, j - 1);
        lemma_run(moments, events, j - 1);
        assert(moments[j - 1].next(moments[j], events[j - 1]));
        a_call_is_exact(moments[j - 1], moments[j], events[j - 1]);
    }
}

/// A lossy byte ring, its producer and one of its readers.
pub open spec fn of_broadcast(
    ring: BytesRingBuffer,
    producer: BytesProducer,
    reader: ByteReader,
    log: Seq<Seq<u8>>,
    place: int,
) -> Moment {
    Moment {
        buf: ring.buf@,
        frontier: ring.frontier,
        floor: producer.intent_floor,
        reader,
        log,
        place,
    }
}

/// What the calls on a lossy byte ring leave behind, as their contracts say,
/// is what the events leave behind: a push; a message, a loss, an idle look and
/// a skip. A consumer that subscribes begins a run of its own.
pub proof fn a_lossy_ring_is_exact(
    ring: BytesRingBuffer,
    after: BytesRingBuffer,
    producer: BytesProducer,
    next: BytesProducer,
    reader: ByteReader,
    moved: ByteReader,
    log: Seq<Seq<u8>>,
    place: int,
    msg: Seq<u8>,
    missed: u64,
)
    requires
        of_broadcast(ring, producer, reader, log, place).inv(),
        producer.inv(&ring),
    ensures
        msg.len() <= max_len(ring.cap()) && producer.next + ring.cap() <= MAX_CURSOR
            && broadcast_bytes::pushed(producer, ring, next, after, msg) ==> of_broadcast(
            ring,
            producer,
            reader,
            log,
            place,
        ).next(of_broadcast(after, next, reader, log.push(msg), place), Event::Write(msg)),
        broadcast_bytes::read(ring, reader, moved, msg) && moved.inv(ring.buf@, ring.frontier)
            ==> of_broadcast(ring, producer, reader, log, place).next(
            of_broadcast(ring, producer, moved, log, place + 1),
            Event::Read { msg, span: moved.pos - reader.pos },
        ),
        broadcast_bytes::overrun(ring, reader, moved, missed) ==> of_broadcast(
            ring,
            producer,
            reader,
            log,
            place,
        ).next(of_broadcast(ring, producer, moved, log, before_last(log)), Event::Lag(missed)),
        broadcast_bytes::idle(ring, reader, moved) ==> of_broadcast(
            ring,
            producer,
            reader,
            log,
            place,
        ).next(of_broadcast(ring, producer, moved, log, place), Event::Look),
        moved == (ByteReader {
            pos: ring.frontier.tail,
            tail_cache: ring.frontier.tail,
            ..reader
        }) && missed == ring.frontier.tail - reader.pos ==> of_broadcast(
            ring,
            producer,
            reader,
            log,
            place,
        ).next(
            of_broadcast(ring, producer, moved, log, log.len() as int),
            Event::Skip(missed),
        ),
        broadcast_bytes::subscribed(&ring, moved) ==> of_broadcast(
            ring,
            producer,
            moved,
            log,
            log.len() as int,
        ).inv(),
{
    lemma_no_messages(ring.buf@, ring.frontier.tail as int);
    assert(log.skip(log.len() as int) =~= Seq::<Seq<u8>>::empty());
    if msg.len() <= max_len(ring.cap()) {
        lemma_frame_fits(producer.next as int, msg.len() as int, ring.cap());
        crate::frames::lemma_records_fit(ring.cap(), msg.len() as int);
    }
}

/// In a fresh lossy byte ring nothing was published.
pub proof fn a_fresh_lossy_ring_has_no_log(
    ring: BytesRingBuffer,
    producer: BytesProducer,
    reader: ByteReader,
)
    requires
        broadcast_bytes::fresh(ring, producer, reader),
    ensures
        of_broadcast(ring, producer, reader, Seq::empty(), 0).inv(),
{
    lemma_no_messages(ring.buf@, 0);
    assert(Seq::<Seq<u8>>::empty().skip(0) =~= Seq::<Seq<u8>>::empty());
}

/// An anchored byte ring, its producer and one of its observers.
pub open spec fn of_anchored<P, C>(
    ring: anchored_bytes::BytesRingBuffer<P, C>,
    producer: anchored_bytes::BytesProducer,
    reader: ByteReader,
    log: Seq<Seq<u8>>,
    place: int,
) -> Moment {
    Moment {
        buf: ring.buf@,
        frontier: ring.frontier(),
        floor: producer.intent_floor,
        reader,
        log,
        place,
    }
}

/// What the calls on an anchored byte ring leave behind, as their contracts
/// say, is what the events leave behind: a push; an observer's message, loss,
/// idle look and skip. What anchors do, and a producer that waits, changes
/// nothing; an observer that subscribes begins a run of its own.
pub proof fn an_anchored_ring_is_exact<P, C>(
    ring: anchored_bytes::BytesRingBuffer<P, C>,
    after: anchored_bytes::BytesRingBuffer<P, C>,
    producer: anchored_bytes::BytesProducer,
    reader: ByteReader,
    moved: ByteReader,
    log: Seq<Seq<u8>>,
    place: int,
    msg: Seq<u8>,
    missed: u64,
)
    requires
        of_anchored(ring, producer, reader, log, place).inv(),
        producer.inv(&ring),
    ensures
        msg.len() <= max_len(ring.cap()) && ring.gate.tail + ring.cap() <= MAX_CURSOR
            && anchored_bytes::pushed(ring, after, msg, producer.intent_floor) ==> of_anchored(
            ring,
            producer,
            reader,
            log,
            place,
        ).next(of_anchored(after, producer, reader, log.push(msg), place), Event::Write(msg)),
        after == (anchored_bytes::BytesRingBuffer {
            gate: after.gate,
            starving: after.starving,
            ..ring
        }) && after.gate.tail == ring.gate.tail ==> of_anchored(
            after,
            producer,
            reader,
            log,
            place,
        ) == of_anchored(ring, producer, reader, log, place),
        anchored_bytes::seen(ring, reader, moved, msg) && moved.inv(ring.buf@, ring.frontier())
            ==> of_anchored(ring, producer, reader, log, place).next(
            of_anchored(ring, producer, moved, log, place + 1),
            Event::Read { msg, span: moved.pos - reader.pos },
        ),
        anchored_bytes::overrun(ring, reader, moved, missed) ==> of_anchored(
            ring,
            producer,
            reader,
            log,
            place,
        ).next(of_anchored(ring, producer, moved, log, before_last(log)), Event::Lag(missed)),
        anchored_bytes::idle(ring, reader, moved) ==> of_anchored(
            ring,
            producer,
            reader,
            log,
            place,
        ).next(of_anchored(ring, producer, moved, log, place), Event::Look),
        moved == (ByteReader { pos: ring.gate.tail, tail_cache: ring.gate.tail, ..reader })
            && missed == ring.gate.tail - reader.pos ==> of_anchored(
            ring,
            producer,
            reader,
            log,
            place,
        ).next(
            of_anchored(ring, producer, moved, log, log.len() as int),
            Event::Skip(missed),
        ),
        anchored_bytes::observing(&ring, moved) ==> of_anchored(
            ring,
            producer,
            moved,
            log,
            log.len() as int,
        ).inv(),
{
    lemma_no_messages(ring.buf@, ring.gate.tail as int);
    assert(log.skip(log.len() as int) =~= Seq::<Seq<u8>>::empty());
    if msg.len() <= max_len(ring.cap()) {
        lemma_frame_fits(ring.gate.tail as int, msg.len() as int, ring.cap());
        crate::frames::lemma_records_fit(ring.cap(), msg.len() as int);
    }
}

/// In an anchored byte ring to which nothing was pushed nothing was published.
pub proof fn a_fresh_anchored_ring_has_no_log<P, C>(
    ring: anchored_bytes::BytesRingBuffer<P, C>,
    producer: anchored_bytes::BytesProducer,
    reader: ByteReader,
)
    requires
        producer.inv(&ring),
        ring.gate.tail == 0,
        anchored_bytes::observing(&ring, reader),
    ensures
        of_anchored(ring, producer, reader, Seq::empty(), 0).inv(),
{
    lemma_no_messages(ring.buf@, 0);
    assert(Seq::<Seq<u8>>::empty().skip(0) =~= Seq::<Seq<u8>>::empty());
}

} // verus!
