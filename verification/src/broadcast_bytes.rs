//! A lossy ring of byte messages of any length: the producer never waits and
//! knows of no consumer; a consumer that is overrun is told how many bytes it
//! missed and continues at the last record.
//!
//! [`BytesRingBuffer`] is the state that all handles share; every operation
//! takes it beside the handle.

use crate::arith::{ring_capacity, MAX_CAPACITY, MAX_CURSOR};
use crate::bytelog::{
    an_overrun_reader_recovers, in_window, log_inv, producer_run, touches, ByteReader, Frontier,
    LogMoment,
};
use crate::cursor::{lemma_rounded, rounded};
use crate::frames::{
    a_frame_round_trips, agree, byte_capacity, end_of, frame, framed, lemma_aligned_offset,
    lemma_frame_fits, lemma_offset, lemma_records_fit, lemma_run_agrees, lemma_run_extends, max_len,
    max_message_len, message_at, messages, pad_for, record, start_of, total_for, with_frame,
    write_frame, HEADER,
};
use crate::text::{digits, with_number};
use crate::wait::YieldWait;
use vstd::prelude::*;

verus! {

/// The smallest capacity.
pub const MIN_CAPACITY: usize = 8;

/// Why a pop has no message.
#[derive(Clone, Copy, Debug, PartialEq, Eq, Structural)]
pub enum PopError {
    /// The consumer was overrun: `missed_bytes` bytes were overwritten unread.
    Lagged { missed_bytes: u64 },
    /// The producer is gone and everything it published has been consumed.
    Closed,
}

impl PopError {
    /// The error in words.
    pub fn message(&self) -> (r: String)
        ensures
            r@ == (match self {
                PopError::Lagged { missed_bytes } => "consumer lagged: "@ + digits(
                    *missed_bytes as nat,
                ) + " bytes overwritten unread"@,
                PopError::Closed =>
                    "ring closed: producer dropped and all published messages consumed"@,
            }),
    {
        match self {
            PopError::Lagged { missed_bytes } => with_number(
                "consumer lagged: ",
                *missed_bytes,
                " bytes overwritten unread",
            ),
            PopError::Closed =>
                "ring closed: producer dropped and all published messages consumed".to_owned(),
        }
    }
}

/// The real capacity of a ring: a power of two, at least [`MIN_CAPACITY`].
pub fn round_capacity(min_capacity: usize) -> (r: usize)
    requires
        0 < min_capacity <= usize::MAX / 2 + 1,
    ensures
        r == rounded(min_capacity as int, MIN_CAPACITY as int),
{
    crate::cursor::round_capacity(min_capacity, MIN_CAPACITY)
}

/// A vector of zeroes.
pub fn zeroed(len: usize) -> (r: Vec<u8>)
    ensures
        r@ == Seq::new(len as nat, |i: int| 0u8),
{
    let mut buf: Vec<u8> = Vec::new();
    let mut i: usize = 0;
    while i < len
        invariant
            i <= len,
            buf@ == Seq::new(i as nat, |j: int| 0u8),
        decreases len - i,
    {
        buf.push(0);
        i += 1;
        proof {
            assert(buf@ =~= Seq::new(i as nat, |j: int| 0u8));
        }
    }
    buf
}

/// The ring: its bytes, and what the producer publishes.
pub struct BytesRingBuffer {
    pub buf: Vec<u8>,
    pub frontier: Frontier,
    /// The producer is gone.
    pub closed: bool,
}

impl BytesRingBuffer {
    /// Bytes in the ring.
    pub open spec fn cap(&self) -> int {
        self.buf@.len() as int
    }

    /// The counters are in order and the last record is readable.
    pub open spec fn inv(&self) -> bool {
        log_inv(self.buf@, self.frontier)
    }

    /// A fresh ring, its producer and one consumer.
    pub fn new(min_capacity: usize) -> (r: (Self, BytesProducer, BytesConsumer))
        requires
            0 < min_capacity <= MAX_CAPACITY,
        ensures
            r.0.cap() == rounded(min_capacity as int, MIN_CAPACITY as int),
            fresh(r.0, r.1, r.2.reader),
            r.2.inv(&r.0),
    {
        Self::with_wait_strategies(min_capacity)
    }

    /// A fresh ring whose consumer waits by the strategy `C`.
    pub fn with_wait_strategies<C: Default>(min_capacity: usize) -> (r: (
        Self,
        BytesProducer,
        BytesConsumer<C>,
    ))
        requires
            0 < min_capacity <= MAX_CAPACITY,
        ensures
            r.0.cap() == rounded(min_capacity as int, MIN_CAPACITY as int),
            fresh(r.0, r.1, r.2.reader),
            r.2.inv(&r.0),
    {
        proof {
            reveal_with_fuel(vstd::arithmetic::power2::is_pow2, 5);
            lemma_rounded(min_capacity as int, MIN_CAPACITY as int);
        }
        let capacity: usize = round_capacity(min_capacity);
        let ring = BytesRingBuffer {
            buf: zeroed(capacity),
            frontier: Frontier { tail: 0, intent: 0, latest: 0 },
            closed: false,
        };
        let consumer = subscribe_from(&ring);
        let producer = BytesProducer { mask: (capacity - 1) as u64, next: 0, intent_floor: 0 };
        (ring, producer, consumer)
    }
}

/// A ring in which nothing was pushed, its producer and a consumer.
pub open spec fn fresh(ring: BytesRingBuffer, producer: BytesProducer, reader: ByteReader) -> bool {
    &&& ring.inv()
    &&& ring.buf@ == Seq::new(ring.buf@.len(), |i: int| 0u8)
    &&& ring.frontier == (Frontier { tail: 0, intent: 0, latest: 0 })
    &&& !ring.closed
    &&& producer.inv(&ring)
    &&& producer.intent_floor == 0
    &&& subscribed(&ring, reader)
}

/// A reader that sees what is committed from now on.
pub open spec fn subscribed(ring: &BytesRingBuffer, reader: ByteReader) -> bool {
    reader == ByteReader {
        mask: (ring.cap() - 1) as u64,
        pos: ring.frontier.tail,
        tail_cache: ring.frontier.tail,
    }
}

fn subscribe_from<C: Default>(ring: &BytesRingBuffer) -> (r: BytesConsumer<C>)
    requires
        ring.inv(),
    ensures
        subscribed(ring, r.reader),
        r.inv(ring),
{
    let mask: u64 = ring.buf.len() as u64 - 1;
    BytesConsumer { reader: ByteReader::join(mask, ring.frontier.tail), wait: C::default() }
}

/// The producing half.
pub struct BytesProducer {
    pub mask: u64,
    pub next: u64,
    /// No declaration goes below this: what a predecessor declared and never
    /// committed stays out of every reader's window.
    pub intent_floor: u64,
}

impl BytesProducer {
    /// The producer belongs to the ring.
    pub open spec fn inv(&self, ring: &BytesRingBuffer) -> bool {
        &&& ring.inv()
        &&& self.mask + 1 == ring.cap()
        &&& self.next == ring.frontier.tail
        &&& ring.frontier.intent == (if self.next > self.intent_floor {
            self.next
        } else {
            self.intent_floor
        })
    }

    /// Publish `msg`. Never waits; the oldest bytes are overwritten.
    pub fn push(&mut self, ring: &mut BytesRingBuffer, msg: &[u8])
        requires
            old(self).inv(old(ring)),
            msg@.len() <= max_len(old(ring).cap()),
            old(self).next + old(ring).cap() <= MAX_CURSOR,
        ensures
            pushed(*old(self), *old(ring), *final(self), *final(ring), msg@),
            final(self).inv(final(ring)),
    {
        let (pad, total): (u64, u64) = frame(self.next, self.mask, msg.len());
        proof {
            lemma_frame_fits(self.next as int, msg@.len() as int, ring.cap());
        }
        let new_tail: u64 = self.next + total;
        let declared: u64 = if new_tail > self.intent_floor {
            new_tail
        } else {
            self.intent_floor
        };
        ring.frontier.intent = declared;
        write_frame(&mut ring.buf, self.mask, self.next, pad, msg);
        ring.frontier.latest = self.next + pad;
        ring.frontier.tail = new_tail;
        self.next = new_tail;
        proof {
            lemma_log_after_push(
                old(ring).buf@,
                old(ring).frontier,
                msg@,
                ring.frontier,
                self.intent_floor,
            );
        }
    }

    /// A consumer that sees what is committed from now on.
    pub fn subscribe<C: Default>(&self, ring: &BytesRingBuffer) -> (r: BytesConsumer<C>)
        requires
            self.inv(ring),
        ensures
            subscribed(ring, r.reader),
            r.inv(ring),
    {
        subscribe_from(ring)
    }

    /// Bytes committed so far.
    pub fn tail(&self) -> (r: u64)
        ensures
            r == self.next,
    {
        self.next
    }

    /// Bytes in the ring.
    pub fn capacity(&self) -> (r: usize)
        requires
            ring_capacity(self.mask + 1),
        ensures
            r == self.mask + 1,
    {
        (self.mask + 1) as usize
    }

    /// The longest message.
    pub fn max_message_len(&self) -> (r: usize)
        requires
            ring_capacity(self.mask + 1),
        ensures
            r == max_len(self.mask + 1),
    {
        max_message_len((self.mask + 1) as usize)
    }

    /// Give the producing half up: consumers drain what is left and then see
    /// [`PopError::Closed`].
    pub fn close(self, ring: &mut BytesRingBuffer)
        requires
            self.inv(old(ring)),
        ensures
            *final(ring) == (BytesRingBuffer { closed: true, ..*old(ring) }),
            final(ring).inv(),
    {
        ring.closed = true;
    }
}

/// The counters after a message of `len` bytes was pushed.
pub open spec fn advanced(f: Frontier, len: int, capacity: int, floor: u64) -> Frontier {
    let new_tail = (f.tail + total_for(f.tail as int, len, capacity)) as u64;
    Frontier {
        tail: new_tail,
        intent: if new_tail > floor {
            new_tail
        } else {
            floor
        },
        latest: (f.tail + pad_for(f.tail as int, len, capacity)) as u64,
    }
}

/// The effect of a push.
pub open spec fn pushed(
    before: BytesProducer,
    ring_before: BytesRingBuffer,
    after: BytesProducer,
    ring_after: BytesRingBuffer,
    msg: Seq<u8>,
) -> bool {
    &&& ring_after.buf@ == with_frame(ring_before.buf@, before.next as int, msg)
    &&& ring_after.frontier == advanced(
        ring_before.frontier,
        msg.len() as int,
        ring_before.cap(),
        before.intent_floor,
    )
    &&& ring_after.closed == ring_before.closed
    &&& after == (BytesProducer { next: ring_after.frontier.tail, ..before })
}

/// A push leaves the counters in order and its record readable.
pub proof fn lemma_log_after_push(
    buf: Seq<u8>,
    before: Frontier,
    msg: Seq<u8>,
    after: Frontier,
    floor: u64,
)
    requires
        log_inv(buf, before),
        msg.len() <= max_len(buf.len() as int),
        before.tail + buf.len() <= MAX_CURSOR,
        floor <= before.intent,
        after == advanced(before, msg.len() as int, buf.len() as int, floor),
    ensures
        log_inv(with_frame(buf, before.tail as int, msg), after),
{
    let cap = buf.len() as int;
    let next = before.tail as int;
    lemma_records_fit(cap, msg.len() as int);
    lemma_frame_fits(next, msg.len() as int, cap);
    a_frame_round_trips(buf, next, msg);
    let start = next + pad_for(next, msg.len() as int, cap);
    let buf2 = with_frame(buf, next, msg);
    assert(framed(buf2, after.tail as int, after.tail as int));
    assert(end_of(buf2, start) == after.tail);
    assert(framed(buf2, start, after.tail as int));
}

/// A push appends its message to what a reader has pending, unless it
/// overruns the reader.
pub proof fn lemma_reader_after_push(
    buf: Seq<u8>,
    before: Frontier,
    msg: Seq<u8>,
    after: Frontier,
    reader: ByteReader,
)
    requires
        log_inv(buf, before),
        reader.inv(buf, before),
        msg.len() <= max_len(buf.len() as int),
        before.tail + buf.len() <= MAX_CURSOR,
        after.tail == before.tail + total_for(
            before.tail as int,
            msg.len() as int,
            buf.len() as int,
        ),
        before.intent <= after.intent,
        log_inv(with_frame(buf, before.tail as int, msg), after),
    ensures
        reader.inv(with_frame(buf, before.tail as int, msg), after),
        in_window(after, reader.pos as int, reader.cap()) ==> in_window(
            before,
            reader.pos as int,
            reader.cap(),
        ) && reader.pending(with_frame(buf, before.tail as int, msg), after) == reader.pending(
            buf,
            before,
        ).push(msg),
{
    let cap = buf.len() as int;
    let next = before.tail as int;
    let pos = reader.pos as int;
    let buf2 = with_frame(buf, next, msg);
    a_frame_round_trips(buf, next, msg);
    lemma_frame_fits(next, msg.len() as int, cap);
    if in_window(after, pos, cap) {
        assert(agree(buf, buf2, pos, next));
        lemma_run_agrees(buf, buf2, pos, next);
        lemma_run_extends(buf2, pos, next, after.tail as int);
    }
}

/// A consuming half.
pub struct BytesConsumer<C = YieldWait> {
    pub reader: ByteReader,
    pub wait: C,
}

impl<C> BytesConsumer<C> {
    /// The consumer belongs to the ring.
    pub open spec fn inv(&self, ring: &BytesRingBuffer) -> bool {
        self.reader.inv(ring.buf@, ring.frontier)
    }

    /// No byte that the consumer has not read has been overwritten.
    pub open spec fn in_window(&self, ring: &BytesRingBuffer) -> bool {
        in_window(ring.frontier, self.reader.pos as int, self.reader.cap())
    }

    /// The messages that the consumer has not read, oldest first, while it
    /// has not been overrun.
    pub open spec fn pending(&self, ring: &BytesRingBuffer) -> Seq<Seq<u8>> {
        self.reader.pending(ring.buf@, ring.frontier)
    }

    /// The condition that `pop` and `pop_into` wait for.
    pub open spec fn is_ready(&self, ring: &BytesRingBuffer) -> bool {
        self.reader.pos < ring.frontier.tail || ring.closed
    }

    /// Whether `pop` and `pop_into` can be answered.
    pub fn ready(&self, ring: &BytesRingBuffer) -> (r: bool)
        ensures
            r == self.is_ready(ring),
    {
        ring.frontier.tail > self.reader.pos || ring.closed
    }

    /// The next message. Waits for [`ready`](Self::ready).
    pub fn pop(&mut self, ring: &BytesRingBuffer) -> (r: Result<Vec<u8>, PopError>)
        requires
            old(self).inv(ring),
            old(self).is_ready(ring),
        ensures
            match r {
                Ok(msg) => read(*ring, old(self).reader, final(self).reader, msg@),
                Err(PopError::Lagged { missed_bytes }) => overrun(
                    *ring,
                    old(self).reader,
                    final(self).reader,
                    missed_bytes,
                ),
                Err(PopError::Closed) => ring.closed && idle(
                    *ring,
                    old(self).reader,
                    final(self).reader,
                ),
            },
            final(self).wait == old(self).wait,
            final(self).inv(ring),
    {
        let mut out: Vec<u8> = Vec::new();
        match self.pop_into(ring, &mut out) {
            Ok(()) => Ok(out),
            Err(e) => Err(e),
        }
    }

    /// The next message, in `out`, which is empty where there is none. Waits
    /// for [`ready`](Self::ready).
    pub fn pop_into(&mut self, ring: &BytesRingBuffer, out: &mut Vec<u8>) -> (r: Result<
        (),
        PopError,
    >)
        requires
            old(self).inv(ring),
            old(self).is_ready(ring),
        ensures
            match r {
                Ok(()) => read(*ring, old(self).reader, final(self).reader, final(out)@),
                Err(PopError::Lagged { missed_bytes }) => overrun(
                    *ring,
                    old(self).reader,
                    final(self).reader,
                    missed_bytes,
                ) && final(out)@.len() == 0,
                Err(PopError::Closed) => ring.closed && idle(
                    *ring,
                    old(self).reader,
                    final(self).reader,
                ) && final(out)@.len() == 0,
            },
            final(self).wait == old(self).wait,
            final(self).inv(ring),
    {
        out.clear();
        if self.reader.has_item(ring.frontier.tail) {
            return self.read_record(ring, out);
        }
        if self.reader.drained(ring.frontier.tail, ring.closed) {
            return Err(PopError::Closed);
        }
        self.read_record(ring, out)
    }

    /// The next message if there is one.
    pub fn try_pop(&mut self, ring: &BytesRingBuffer) -> (r: Result<Option<Vec<u8>>, PopError>)
        requires
            old(self).inv(ring),
        ensures
            match r {
                Ok(Some(msg)) => read(*ring, old(self).reader, final(self).reader, msg@),
                Ok(None) => !ring.closed && idle(*ring, old(self).reader, final(self).reader),
                Err(PopError::Lagged { missed_bytes }) => overrun(
                    *ring,
                    old(self).reader,
                    final(self).reader,
                    missed_bytes,
                ),
                Err(PopError::Closed) => ring.closed && idle(
                    *ring,
                    old(self).reader,
                    final(self).reader,
                ),
            },
            final(self).wait == old(self).wait,
            final(self).inv(ring),
    {
        let mut out: Vec<u8> = Vec::new();
        match self.try_pop_into(ring, &mut out) {
            Ok(true) => Ok(Some(out)),
            Ok(false) => Ok(None),
            Err(e) => Err(e),
        }
    }

    /// The next message if there is one, in `out`; `false`, and `out` as it
    /// was, if there is none.
    pub fn try_pop_into(&mut self, ring: &BytesRingBuffer, out: &mut Vec<u8>) -> (r: Result<
        bool,
        PopError,
    >)
        requires
            old(self).inv(ring),
        ensures
            match r {
                Ok(true) => read(*ring, old(self).reader, final(self).reader, final(out)@),
                Ok(false) => !ring.closed && idle(*ring, old(self).reader, final(self).reader)
                    && final(out)@ == old(out)@,
                Err(PopError::Lagged { missed_bytes }) => overrun(
                    *ring,
                    old(self).reader,
                    final(self).reader,
                    missed_bytes,
                ) && final(out)@ == old(out)@,
                Err(PopError::Closed) => ring.closed && idle(
                    *ring,
                    old(self).reader,
                    final(self).reader,
                ) && final(out)@ == old(out)@,
            },
            final(self).wait == old(self).wait,
            final(self).inv(ring),
    {
        if self.reader.has_item(ring.frontier.tail) {
            return match self.read_record(ring, out) {
                Ok(()) => Ok(true),
                Err(e) => Err(e),
            };
        }
        if self.reader.drained(ring.frontier.tail, ring.closed) {
            return Err(PopError::Closed);
        }
        if self.reader.available() {
            return match self.read_record(ring, out) {
                Ok(()) => Ok(true),
                Err(e) => Err(e),
            };
        }
        Ok(false)
    }

    fn read_record(&mut self, ring: &BytesRingBuffer, out: &mut Vec<u8>) -> (r: Result<
        (),
        PopError,
    >)
        requires
            old(self).inv(ring),
            old(self).reader.pos < ring.frontier.tail,
            old(self).reader.tail_cache > old(self).reader.pos,
        ensures
            match r {
                Ok(()) => read(*ring, old(self).reader, final(self).reader, final(out)@),
                Err(PopError::Lagged { missed_bytes }) => overrun(
                    *ring,
                    old(self).reader,
                    final(self).reader,
                    missed_bytes,
                ) && final(out)@ == old(out)@,
                Err(PopError::Closed) => false,
            },
            final(self).wait == old(self).wait,
            final(self).inv(ring),
    {
        match self.reader.read_record(&ring.buf, ring.frontier, out) {
            Ok(()) => Ok(()),
            Err(missed_bytes) => Err(PopError::Lagged { missed_bytes }),
        }
    }

    /// Skip everything committed so far; the number of bytes skipped.
    pub fn skip_to_latest(&mut self, ring: &BytesRingBuffer) -> (skipped: u64)
        requires
            old(self).inv(ring),
        ensures
            old(self).reader.skips(ring.frontier.tail, &final(self).reader, skipped),
            skipped == ring.frontier.tail - old(self).reader.pos,
            final(self).reader == (ByteReader {
                pos: ring.frontier.tail,
                tail_cache: ring.frontier.tail,
                ..old(self).reader
            }),
            final(self).wait == old(self).wait,
            final(self).inv(ring),
            final(self).pending(ring).len() == 0,
    {
        self.reader.skip_to_latest(ring.frontier.tail)
    }

    /// How many committed bytes the consumer has not read.
    pub fn lag(&self, ring: &BytesRingBuffer) -> (r: u64)
        requires
            self.inv(ring),
        ensures
            r == ring.frontier.tail - self.reader.pos,
    {
        self.reader.lag(ring.frontier.tail)
    }

    /// Another consumer, which sees what is committed from now on.
    pub fn subscribe(&self, ring: &BytesRingBuffer) -> (r: BytesConsumer<C>) where C: Default
        requires
            self.inv(ring),
        ensures
            subscribed(ring, r.reader),
            r.inv(ring),
    {
        subscribe_from(ring)
    }

    /// Bytes in the ring.
    pub fn capacity(&self) -> (r: usize)
        requires
            ring_capacity(self.reader.cap()),
        ensures
            r == self.reader.cap(),
    {
        (self.reader.mask + 1) as usize
    }

    /// The longest message.
    pub fn max_message_len(&self) -> (r: usize)
        requires
            ring_capacity(self.reader.cap()),
        ensures
            r == max_len(self.reader.cap()),
    {
        max_message_len((self.reader.mask + 1) as usize)
    }
}

/// The reader was handed its oldest pending message and stands behind its
/// frame.
pub open spec fn read(
    ring: BytesRingBuffer,
    before: ByteReader,
    after: ByteReader,
    msg: Seq<u8>,
) -> bool {
    let pending = before.pending(ring.buf@, ring.frontier);
    &&& before.pos < ring.frontier.tail
    &&& in_window(ring.frontier, before.pos as int, before.cap())
    &&& pending.len() > 0
    &&& msg == pending[0]
    &&& after.pending(ring.buf@, ring.frontier) == pending.drop_first()
    &&& after.pos == end_of(ring.buf@, before.pos as int)
    &&& after == ByteReader {
        pos: after.pos,
        tail_cache: before.looked_up(ring.frontier.tail),
        ..before
    }
}

/// The reader was overrun and skipped exactly the reported number of bytes.
pub open spec fn overrun(
    ring: BytesRingBuffer,
    before: ByteReader,
    after: ByteReader,
    missed: u64,
) -> bool {
    &&& before.pos < ring.frontier.tail
    &&& !in_window(ring.frontier, before.pos as int, before.cap())
    &&& after == ByteReader {
        pos: before.resumed(ring.frontier),
        tail_cache: ring.frontier.tail,
        ..before
    }
    &&& before.pos + missed == after.pos
}

/// Nothing was committed past the reader.
pub open spec fn idle(ring: BytesRingBuffer, before: ByteReader, after: ByteReader) -> bool {
    &&& before.pos == ring.frontier.tail
    &&& after == ByteReader { tail_cache: ring.frontier.tail, ..before }
}

/// A push appends its message to what every consumer has pending, except for
/// those that it overruns; no consumer's place is disturbed.
pub proof fn a_push_appends_or_overruns<C>(
    before: BytesProducer,
    ring_before: BytesRingBuffer,
    after: BytesProducer,
    ring_after: BytesRingBuffer,
    msg: Seq<u8>,
    consumer: BytesConsumer<C>,
)
    requires
        before.inv(&ring_before),
        consumer.inv(&ring_before),
        msg.len() <= max_len(ring_before.cap()),
        before.next + ring_before.cap() <= MAX_CURSOR,
        pushed(before, ring_before, after, ring_after, msg),
        after.inv(&ring_after),
    ensures
        consumer.inv(&ring_after),
        consumer.in_window(&ring_after) ==> consumer.in_window(&ring_before) && consumer.pending(
            &ring_after,
        ) == consumer.pending(&ring_before).push(msg),
{
    lemma_frame_fits(before.next as int, msg.len() as int, ring_before.cap());
    lemma_reader_after_push(
        ring_before.buf@,
        ring_before.frontier,
        msg,
        ring_after.frontier,
        consumer.reader,
    );
}

/// An overrun consumer skips at least one byte and lands on the last record,
/// which it can read.
pub proof fn an_overrun_consumer_recovers<C>(
    ring: BytesRingBuffer,
    consumer: BytesConsumer<C>,
    after: ByteReader,
    missed: u64,
)
    requires
        consumer.inv(&ring),
        overrun(ring, consumer.reader, after, missed),
    ensures
        missed > 0,
        after.pos == ring.frontier.latest,
        in_window(ring.frontier, after.pos as int, ring.cap()),
        framed(ring.buf@, after.pos as int, ring.frontier.tail as int),
{
    an_overrun_reader_recovers(ring.buf@, ring.frontier, consumer.reader);
}

/// What a push writes, at any point of its course, is what it has declared
/// and not committed; it declares before it writes and commits last.
pub proof fn a_push_declares_before_it_writes(
    before: BytesProducer,
    ring_before: BytesRingBuffer,
    after: BytesProducer,
    ring_after: BytesRingBuffer,
    msg: Seq<u8>,
) -> (run: Seq<LogMoment>)
    requires
        before.inv(&ring_before),
        msg.len() <= max_len(ring_before.cap()),
        before.next + ring_before.cap() <= MAX_CURSOR,
        pushed(before, ring_before, after, ring_after, msg),
    ensures
        producer_run(run),
        run.len() == 4,
        run[0] == (LogMoment {
            tail: ring_before.frontier.tail as int,
            intent: ring_before.frontier.intent as int,
            buf: ring_before.buf@,
        }),
        run[1] == (LogMoment { intent: ring_after.frontier.intent as int, ..run[0] }),
        run[2] == (LogMoment { buf: ring_after.buf@, ..run[1] }),
        run[3] == (LogMoment { tail: ring_after.frontier.tail as int, ..run[2] }),
{
    let start = LogMoment {
        tail: ring_before.frontier.tail as int,
        intent: ring_before.frontier.intent as int,
        buf: ring_before.buf@,
    };
    let declared = LogMoment { intent: ring_after.frontier.intent as int, ..start };
    let written = LogMoment { buf: ring_after.buf@, ..declared };
    let committed = LogMoment { tail: ring_after.frontier.tail as int, ..written };
    lemma_frame_fits(before.next as int, msg.len() as int, ring_before.cap());
    lemma_frame_touches(ring_before.buf@, before.next as int, msg);
    assert forall|o: int|
        0 <= o < ring_before.buf@.len() && #[trigger] ring_after.buf@[o]
            != ring_before.buf@[o] implies exists|m: int|
        declared.tail <= m < declared.intent && #[trigger] (m % ring_before.buf@.len() as int)
            == o by {
        let m = choose|m: int|
            before.next <= m < ring_after.frontier.tail && #[trigger] (m
                % ring_before.buf@.len() as int) == o;
        assert(m % ring_before.buf@.len() as int == o);
    }
    seq![start, declared, written, committed]
}

/// A frame is written between its start and its end.
pub proof fn lemma_frame_touches(buf: Seq<u8>, next: int, msg: Seq<u8>)
    requires
        byte_capacity(buf.len() as int),
        msg.len() <= max_len(buf.len() as int),
        0 <= next,
        next % 8 == 0,
    ensures
        touches(
            buf,
            with_frame(buf, next, msg),
            next,
            next + total_for(next, msg.len() as int, buf.len() as int),
        ),
{
    let cap = buf.len() as int;
    let len = msg.len() as int;
    let pad = pad_for(next, len, cap);
    let start = next + pad;
    let after = with_frame(buf, next, msg);
    reveal(with_frame);
    lemma_records_fit(cap, len);
    lemma_frame_fits(next, len, cap);
    lemma_aligned_offset(next, cap);
    assert forall|o: int| 0 <= o < cap && #[trigger] after[o] != buf[o] implies exists|m: int|
        next <= m < next + total_for(next, len, cap) && #[trigger] (m % cap) == o by {
        if pad > 0 && next % cap <= o < next % cap + 4 {
            lemma_offset(next, o - next % cap, cap);
            assert((next + (o - next % cap)) % cap == o);
        } else {
            assert(start % cap <= o < start % cap + HEADER + crate::atomic_copy::lanes(len));
            lemma_offset(start, o - start % cap, cap);
            assert((start + (o - start % cap)) % cap == o);
        }
    }
}

/// The longest message is an eighth of the ring, as far as a length field
/// counts. A message of that length, or a shorter one, comes back byte for byte
/// from a consumer that keeps up.
pub proof fn the_longest_message_comes_back<C>(
    before: BytesProducer,
    ring_before: BytesRingBuffer,
    after: BytesProducer,
    ring_after: BytesRingBuffer,
    msg: Seq<u8>,
    consumer: BytesConsumer<C>,
)
    requires
        before.inv(&ring_before),
        consumer.inv(&ring_before),
        consumer.reader.pos == ring_before.frontier.tail,
        msg.len() <= max_len(ring_before.cap()),
        before.next + ring_before.cap() <= MAX_CURSOR,
        pushed(before, ring_before, after, ring_after, msg),
        after.inv(&ring_after),
    ensures
        ring_before.cap() <= 0x1_0000_0000 ==> max_len(ring_before.cap()) == ring_before.cap() / 8,
        consumer.inv(&ring_after),
        consumer.in_window(&ring_after),
        consumer.pending(&ring_after) == seq![msg],
{
    lemma_frame_fits(before.next as int, msg.len() as int, ring_before.cap());
    a_push_appends_or_overruns(before, ring_before, after, ring_after, msg, consumer);
    crate::frames::lemma_no_messages(ring_before.buf@, before.next as int);
    assert(consumer.pending(&ring_before).push(msg) =~= seq![msg]);
}

/// A skip counts the consumer's lag and leaves none; it never moves the
/// consumer back, and a second one skips nothing. What is committed next is all
/// that the consumer has pending then, and what is reported as missed starts
/// with it.
pub proof fn a_skip_leaves_what_comes_later<C>(
    before: BytesProducer,
    ring_before: BytesRingBuffer,
    consumer: BytesConsumer<C>,
    skipper: BytesConsumer<C>,
    skipped: u64,
    again: ByteReader,
    skipped_again: u64,
    after: BytesProducer,
    ring_after: BytesRingBuffer,
    msg: Seq<u8>,
    later: BytesRingBuffer,
    next: ByteReader,
    missed_bytes: u64,
)
    requires
        before.inv(&ring_before),
        consumer.inv(&ring_before),
        consumer.reader.skips(ring_before.frontier.tail, &skipper.reader, skipped),
        skipper.inv(&ring_before),
        skipper.reader.skips(ring_before.frontier.tail, &again, skipped_again),
        msg.len() <= max_len(ring_before.cap()),
        before.next + ring_before.cap() <= MAX_CURSOR,
        pushed(before, ring_before, after, ring_after, msg),
        after.inv(&ring_after),
    ensures
        skipped == ring_before.frontier.tail - consumer.reader.pos,
        skipper.reader.pos == ring_before.frontier.tail,
        skipper.reader.pos >= consumer.reader.pos,
        skipped_again == 0,
        again == skipper.reader,
        skipper.in_window(&ring_after),
        skipper.pending(&ring_after) == seq![msg],
        overrun(later, skipper.reader, next, missed_bytes) ==> next.pos
            == ring_before.frontier.tail + missed_bytes,
{
    the_longest_message_comes_back(before, ring_before, after, ring_after, msg, skipper);
}

/// A push commits its frame, and marks the record of its message as the last
/// one, to which an overrun consumer skips: the message is there, and nothing
/// behind it. What is declared is never less than what is committed, nor than
/// what was declared by others before.
pub proof fn the_last_record_is_marked(
    before: BytesProducer,
    ring_before: BytesRingBuffer,
    after: BytesProducer,
    ring_after: BytesRingBuffer,
    msg: Seq<u8>,
)
    requires
        before.inv(&ring_before),
        msg.len() <= max_len(ring_before.cap()),
        before.next + ring_before.cap() <= MAX_CURSOR,
        pushed(before, ring_before, after, ring_after, msg),
    ensures
        ({
            let f = ring_after.frontier;
            let last = f.latest as int;
            &&& ring_before.frontier.tail <= f.latest < f.tail
            &&& f.tail == last + record(msg.len() as int)
            &&& start_of(ring_after.buf@, last) == last
            &&& end_of(ring_after.buf@, last) == f.tail
            &&& message_at(ring_after.buf@, last) == msg
            &&& f.intent >= f.tail
            &&& f.intent >= before.intent_floor
            &&& f.intent == f.tail || f.intent == before.intent_floor
            &&& after.next == f.tail
            &&& after.intent_floor == before.intent_floor
        }),
{
    let cap = ring_before.cap();
    lemma_frame_fits(before.next as int, msg.len() as int, cap);
    crate::frames::lemma_records_fit(cap, msg.len() as int);
    crate::frames::a_frame_round_trips(ring_before.buf@, before.next as int, msg);
}

/// A new ring is empty and open, and its consumer is handed the first message
/// first.
pub proof fn a_new_ring_hands_out_the_first_push<C>(
    ring: BytesRingBuffer,
    producer: BytesProducer,
    consumer: BytesConsumer<C>,
    after: BytesProducer,
    ring_after: BytesRingBuffer,
    msg: Seq<u8>,
)
    requires
        fresh(ring, producer, consumer.reader),
        consumer.inv(&ring),
        msg.len() <= max_len(ring.cap()),
        producer.next + ring.cap() <= MAX_CURSOR,
        pushed(producer, ring, after, ring_after, msg),
        after.inv(&ring_after),
    ensures
        !ring.closed,
        consumer.reader.pos == ring.frontier.tail,
        producer.next == ring.frontier.tail,
        consumer.pending(&ring_after) == seq![msg],
        consumer.in_window(&ring_after),
{
    the_longest_message_comes_back(producer, ring, after, ring_after, msg, consumer);
}

/// A consumer that subscribes is handed nothing of what was committed before,
/// and everything from then on.
pub proof fn a_subscriber_starts_at_the_tail(ring: BytesRingBuffer, reader: ByteReader)
    requires
        ring.inv(),
        subscribed(&ring, reader),
    ensures
        reader.pos == ring.frontier.tail,
        reader.tail_cache == ring.frontier.tail,
        reader.mask + 1 == ring.cap(),
{
}

/// A consumer is told that it was overrun exactly where more than a ring of bytes
/// was declared past it, and is handed its next message where it was not; then it
/// goes on at the last record, and what it is told is what it skipped.
pub proof fn lagging_means_overrun(
    ring: BytesRingBuffer,
    before: ByteReader,
    after: ByteReader,
    msg: Seq<u8>,
    missed_bytes: u64,
)
    requires
        before.inv(ring.buf@, ring.frontier),
    ensures
        read(ring, before, after, msg) ==> ring.frontier.intent - before.pos <= ring.cap() && before.pos
            < ring.frontier.tail,
        overrun(ring, before, after, missed_bytes) ==> ring.frontier.intent - before.pos > ring.cap()
            && after.pos == ring.frontier.latest && after.pos - before.pos == missed_bytes,
{
    if overrun(ring, before, after, missed_bytes) {
        crate::bytelog::an_overrun_reader_recovers(ring.buf@, ring.frontier, before);
    }
}

} // verus!
