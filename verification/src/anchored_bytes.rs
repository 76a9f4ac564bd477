//! A ring of byte messages of any length with two kinds of consumers: anchors,
//! which hold the producer back and are handed every message, and observers,
//! which it ignores and which are told how many bytes they missed.
//!
//! [`BytesRingBuffer`] is the state that all handles share; every operation
//! takes it beside the handle. An operation that waits (`push`, `claim`,
//! `pop`) may be called once its condition holds: poll
//! [`BytesProducer::has_space`], [`BytesAnchor::ready`] or
//! [`BytesObserver::ready`] first.

use crate::arith::{ring_capacity, slot_index, MAX_CAPACITY, MAX_CURSOR};
use crate::atomic_copy::load_lane;
pub use crate::broadcast_bytes::PopError;
use crate::broadcast_bytes::{lemma_log_after_push, lemma_reader_after_push, zeroed};
use crate::bytelog::{
    an_overrun_reader_recovers, in_window, log_inv, producer_run, ByteReader, Frontier, LogMoment,
};
use crate::cursor::{a_batch_is_an_eighth, batch_of, lemma_rounded, rounded};
use crate::frames::{
    a_frame_fits_under_a_free_run, a_frame_round_trips, agree, byte_capacity, end_of, frame,
    frame_ok, framed, lemma_aligned_offset, lemma_frame_fits, lemma_frame_grows,
    lemma_header_is_lane, lemma_no_messages, lemma_offset, lemma_records_fit, lemma_run_agrees,
    lemma_run_ends, lemma_run_extends, lemma_runs_join, lemma_skip_padding, lemma_wrap, len_at,
    max_len, max_span, message_at, messages, pad_for, record, start_of, total_for, with_frame,
    write_frame, HEADER, PADDING,
};
use crate::gate::{
    a_join_keeps_everyone, advanced, hand_over, holds_back, joined, joining_and_leaving_are_counted,
    progress_keeps_other_consumers, progress_keeps_the_producer, room_is_counted_from_the_slowest,
    stored, Gate, GateConsumer, GateProducer,
};
use crate::handler::{lemma_took_run, took_runs, Handler};
use crate::registry::{active_in, publish_batch_bytes, GateSlot, DETACHED, MAX_PUBLISH_BATCH_BYTES};
use crate::spmc::lemma_first_join;
pub use crate::spmc::{Closed, SubscribeError};
use crate::wait::YieldWait;
use vstd::prelude::*;

verus! {

/// The smallest capacity: a frame is always shorter than the ring.
pub const MIN_CAPACITY: usize = 16;

/// Bytes of a record with a message of `len` bytes, header and fill included.
pub fn record_len(len: usize) -> (r: usize)
    requires
        len <= usize::MAX - 11,
    ensures
        r == record(len as int),
{
    crate::frames::record_len(len)
}

/// The longest message of a ring: an eighth of its capacity.
pub fn max_message_len(capacity: usize) -> (r: usize)
    ensures
        r == max_len(capacity as int),
{
    crate::frames::max_message_len(capacity)
}

/// The most bytes that a frame of a ring occupies, padding included.
pub fn max_record_span(capacity: usize) -> (r: usize)
    requires
        byte_capacity(capacity as int),
    ensures
        r == max_span(capacity as int),
{
    crate::frames::max_record_span(capacity)
}

/// Decode the frame at `cur`: where its record starts, how long its message
/// is, and the offset of the message.
pub fn decode_record(buf: &Vec<u8>, mask: u64, cur: u64) -> (r: (u64, usize, usize))
    requires
        byte_capacity(mask + 1),
        buf@.len() == mask + 1,
        frame_ok(buf@, cur as int),
        cur + 2 * (mask + 1) <= u64::MAX,
    ensures
        r.0 == start_of(buf@, cur as int),
        r.1 == len_at(buf@, cur as int),
        r.2 == r.0 as int % (mask + 1) + HEADER,
        r.2 + r.1 <= mask + 1,
        buf@.subrange(r.2 as int, r.2 + r.1) == message_at(buf@, cur as int),
{
    let ghost p = cur as int;
    let ghost cap = mask + 1;
    proof {
        lemma_records_fit(cap, len_at(buf@, p));
        lemma_frame_grows(buf@, p);
        lemma_aligned_offset(p, cap);
        lemma_header_is_lane(buf@, p);
        lemma_wrap(p, cap);
        lemma_header_is_lane(buf@, start_of(buf@, p));
        lemma_aligned_offset(start_of(buf@, p), cap);
    }
    let mut at: u64 = cur;
    let mut pos: usize = slot_index(cur, mask);
    let mut head: u32 = load_lane(buf, pos);
    if head == PADDING {
        at = at.wrapping_add((mask + 1) - pos as u64);
        pos = 0;
        head = load_lane(buf, 0);
    }
    let len: usize = head as usize;
    proof {
        let s = start_of(buf@, p);
        assert(at == s);
        assert(pos == s % cap);
        assert(buf@.subrange(pos + HEADER, pos + HEADER + len) =~= message_at(buf@, p)) by {
            assert forall|k: int| 0 <= k < len implies #[trigger] message_at(buf@, p)[k]
                == buf@[pos + HEADER + k] by {
                lemma_offset(s, HEADER + k, cap);
            }
        }
    }
    (at, len, pos + HEADER)
}

/// The ring: its bytes, and what producer and anchors publish.
pub struct BytesRingBuffer<P = YieldWait, C = YieldWait> {
    pub buf: Vec<u8>,
    pub gate: Gate,
    /// The declared end of what the producer writes.
    pub tail_intent: u64,
    /// Where the last record starts.
    pub latest: u64,
    /// The bytes that a producer out of space waits for; zero if it does not.
    pub starving: u64,
    pub producer_wait: P,
    pub consumer_wait: C,
}

impl<P, C> BytesRingBuffer<P, C> {
    /// Bytes in the ring.
    pub open spec fn cap(&self) -> int {
        self.buf@.len() as int
    }

    /// The producer's counters.
    pub open spec fn frontier(&self) -> Frontier {
        Frontier { tail: self.gate.tail, intent: self.tail_intent, latest: self.latest }
    }

    /// The counters are in order and the last record is readable.
    pub open spec fn inv(&self) -> bool {
        &&& self.cap() >= 16
        &&& log_inv(self.buf@, self.frontier())
        &&& self.gate.inv()
        &&& self.starving < self.cap()
    }

    /// Bytes of the frame of a message of `len` bytes, at the producer's
    /// position.
    pub open spec fn needed(&self, len: int) -> int {
        total_for(self.gate.tail as int, len, self.cap())
    }

    /// Every anchor leaves room for a message of `len` bytes.
    pub open spec fn has_room(&self, len: int) -> bool {
        self.gate@.open_for(self.needed(len), self.cap())
    }

    /// The producer's counters.
    pub fn counters(&self) -> (r: Frontier)
        ensures
            r == self.frontier(),
    {
        Frontier { tail: self.gate.tail, intent: self.tail_intent, latest: self.latest }
    }

    /// A fresh ring, its producer and one anchor. The capacity is
    /// `min_capacity` rounded up to a power of two, at least
    /// [`MIN_CAPACITY`].
    pub fn with_wait_strategies(min_capacity: usize) -> (r: (Self, BytesProducer, BytesAnchor)) where
        P: Default,
        C: Default,

        requires
            0 < min_capacity <= MAX_CAPACITY,
        ensures
            r.0.cap() == rounded(min_capacity as int, MIN_CAPACITY as int),
            fresh(r.0, r.1, r.2),
    {
        proof {
            reveal_with_fuel(vstd::arithmetic::power2::is_pow2, 6);
            lemma_rounded(min_capacity as int, MIN_CAPACITY as int);
        }
        let capacity: usize = crate::cursor::round_capacity(min_capacity, MIN_CAPACITY);
        let mut gate = Gate::new();
        let ghost before = gate.registry@;
        let core = GateConsumer::join(&mut gate, (capacity - 1) as u64);
        proof {
            lemma_first_join(before, gate.registry@, core.slot.at());
        }
        let producer = BytesProducer {
            core: GateProducer::new(capacity),
            raised_starving: false,
            intent_floor: 0,
        };
        let ring = BytesRingBuffer {
            buf: zeroed(capacity),
            gate,
            tail_intent: 0,
            latest: 0,
            starving: 0,
            producer_wait: P::default(),
            consumer_wait: C::default(),
        };
        proof {
            lemma_no_messages(ring.buf@, 0);
        }
        (ring, producer, BytesAnchor { core, shm: None })
    }
}

impl BytesRingBuffer {
    /// A fresh ring with the default wait strategies.
    pub fn new(min_capacity: usize) -> (r: (Self, BytesProducer, BytesAnchor))
        requires
            0 < min_capacity <= MAX_CAPACITY,
        ensures
            r.0.cap() == rounded(min_capacity as int, MIN_CAPACITY as int),
            fresh(r.0, r.1, r.2),
    {
        Self::with_wait_strategies(min_capacity)
    }
}

/// A ring in which nothing was pushed, its producer and one anchor.
pub open spec fn fresh<P, C>(
    ring: BytesRingBuffer<P, C>,
    producer: BytesProducer,
    anchor: BytesAnchor,
) -> bool {
    &&& ring.inv()
    &&& ring.frontier() == (Frontier { tail: 0, intent: 0, latest: 0 })
    &&& ring.starving == 0
    &&& !ring.gate.closed
    &&& active_in(ring.gate.registry@) == 1
    &&& producer.inv(&ring)
    &&& producer.intent_floor == 0
    &&& producer.core.known_lag() == 0
    &&& anchor.inv(&ring)
    &&& anchor.shm is None
    &&& anchor.pending(&ring).len() == 0
}

/// The outcome of an anchor's subscription.
pub open spec fn subscribed<P, C>(
    before: BytesRingBuffer<P, C>,
    after: BytesRingBuffer<P, C>,
    r: Result<BytesAnchor, SubscribeError>,
) -> bool {
    match r {
        Ok(anchor) => {
            &&& !before.gate.closed
            &&& after == (BytesRingBuffer { gate: after.gate, ..before })
            &&& joined(before.gate@, after.gate@, anchor.core.slot.at())
            &&& anchor.inv(&after)
            &&& anchor.core.read_cursor == before.gate.tail
            &&& anchor.shm is None
            &&& anchor.pending(&after).len() == 0
        },
        Err(e) => e == SubscribeError::Closed && before.gate.closed && after == before,
    }
}

/// Register an anchor, unless the producer is gone.
fn subscribe_from<P, C>(ring: &mut BytesRingBuffer<P, C>, mask: u64) -> (r: Result<
    BytesAnchor,
    SubscribeError,
>)
    requires
        old(ring).inv(),
        mask + 1 == old(ring).cap(),
    ensures
        subscribed(*old(ring), *final(ring), r),
        final(ring).gate.inv(),
{
    if ring.gate.closed {
        return Err(SubscribeError::Closed);
    }
    let core = GateConsumer::join(&mut ring.gate, mask);
    proof {
        lemma_no_messages(ring.buf@, ring.gate.tail as int);
    }
    Ok(BytesAnchor { core, shm: None })
}

/// A reader that sees what is committed from now on.
pub open spec fn observing<P, C>(ring: &BytesRingBuffer<P, C>, reader: ByteReader) -> bool {
    reader == ByteReader {
        mask: (ring.cap() - 1) as u64,
        pos: ring.gate.tail,
        tail_cache: ring.gate.tail,
    }
}

fn observe_from<P, C, W: Default>(ring: &BytesRingBuffer<P, C>) -> (r: BytesObserver<W>)
    requires
        ring.inv(),
    ensures
        observing(ring, r.reader),
        r.inv(ring),
{
    let mask: u64 = ring.buf.len() as u64 - 1;
    BytesObserver { reader: ByteReader::join(mask, ring.gate.tail), wait: W::default() }
}

/// The producing half.
pub struct BytesProducer {
    pub core: GateProducer,
    /// The ring says that the producer is out of space.
    pub raised_starving: bool,
    /// No declaration goes below this: what a predecessor declared and never
    /// committed stays out of every observer's window.
    pub intent_floor: u64,
}

impl BytesProducer {
    /// The producer belongs to the ring.
    pub open spec fn inv<P, C>(&self, ring: &BytesRingBuffer<P, C>) -> bool {
        &&& ring.inv()
        &&& self.core.inv(ring.gate@)
        &&& self.core.cap() == ring.cap()
        &&& self.raised_starving == (ring.starving != 0)
        &&& ring.tail_intent == (if ring.gate.tail > self.intent_floor {
            ring.gate.tail
        } else {
            self.intent_floor
        })
    }

    /// `total` bytes are granted: the slowest known anchor leaves room for
    /// them.
    pub open spec fn granted(&self, total: int) -> bool {
        self.core.known_lag() + total <= self.core.cap()
    }

    /// Publish `msg`. Waits for [`has_space`](Self::has_space) on its frame.
    pub fn push<P, C>(&mut self, ring: &mut BytesRingBuffer<P, C>, msg: &[u8])
        requires
            old(self).inv(old(ring)),
            msg@.len() <= max_len(old(ring).cap()),
            old(ring).has_room(msg@.len() as int),
            old(ring).gate.tail + old(ring).cap() <= MAX_CURSOR,
        ensures
            sent(*old(self), *old(ring), *final(self), *final(ring), msg@),
            final(self).inv(final(ring)),
    {
        let (pad, total): (u64, u64) = self.frame(ring, msg.len());
        self.has_space(ring, total);
        let ghost asked = self.core;
        self.write_frame(ring, pad, msg);
        assert(old(self).core.asked(&asked, old(ring).gate@, total));
    }

    /// Publish `msg` if the slowest anchor leaves room for its frame.
    pub fn try_push<P, C>(&mut self, ring: &mut BytesRingBuffer<P, C>, msg: &[u8]) -> (r: bool)
        requires
            old(self).inv(old(ring)),
            msg@.len() <= max_len(old(ring).cap()),
            old(ring).gate.tail + old(ring).cap() <= MAX_CURSOR,
        ensures
            try_pushed(*old(self), *old(ring), *final(self), *final(ring), msg@, r),
            final(self).inv(final(ring)),
    {
        let (pad, total): (u64, u64) = self.frame(ring, msg.len());
        if !self.has_space(ring, total) {
            return false;
        }
        let ghost asked = self.core;
        self.write_frame(ring, pad, msg);
        assert(old(self).core.asked(&asked, old(ring).gate@, total));
        true
    }

    /// Claim the frame of a message of `len` bytes. Waits for
    /// [`has_space`](Self::has_space).
    pub fn claim<P, C>(&mut self, ring: &mut BytesRingBuffer<P, C>, len: usize) -> (r: WriteSlot)
        requires
            old(self).inv(old(ring)),
            len <= max_len(old(ring).cap()),
            old(ring).has_room(len as int),
        ensures
            claimed(*old(self), *old(ring), *final(self), *final(ring), len, r),
            final(self).inv(final(ring)),
    {
        let (pad, total): (u64, u64) = self.frame(ring, len);
        self.has_space(ring, total);
        WriteSlot { pad, len }
    }

    /// Claim the frame of a message of `len` bytes if the slowest anchor
    /// leaves room for it.
    pub fn try_claim<P, C>(&mut self, ring: &mut BytesRingBuffer<P, C>, len: usize) -> (r: Option<
        WriteSlot,
    >)
        requires
            old(self).inv(old(ring)),
            len <= max_len(old(ring).cap()),
        ensures
            try_claimed(*old(self), *old(ring), *final(self), *final(ring), len, r),
            final(self).inv(final(ring)),
    {
        let (pad, total): (u64, u64) = self.frame(ring, len);
        if !self.has_space(ring, total) {
            return None;
        }
        Some(WriteSlot { pad, len })
    }

    /// Register another anchor. It is handed what is published from now on.
    pub fn subscribe_anchor<P, C>(&self, ring: &mut BytesRingBuffer<P, C>) -> (r: Result<
        BytesAnchor,
        SubscribeError,
    >)
        requires
            self.inv(old(ring)),
        ensures
            subscribed(*old(ring), *final(ring), r),
            self.inv(final(ring)),
    {
        let r = subscribe_from(ring, self.core.mask);
        proof {
            if r is Ok {
                a_join_keeps_everyone(
                    self.core,
                    r->Ok_0.core,
                    old(ring).gate@,
                    ring.gate@,
                    r->Ok_0.core.slot.at(),
                );
            }
        }
        r
    }

    /// An observer, which sees what is published from now on.
    pub fn subscribe_observer<P, C: Default>(&self, ring: &BytesRingBuffer<P, C>) -> (r:
        BytesObserver<C>)
        requires
            self.inv(ring),
        ensures
            observing(ring, r.reader),
            r.inv(ring),
    {
        observe_from(ring)
    }

    /// The number of anchors (capped at what a machine word can count).
    pub fn anchor_count<P, C>(&self, ring: &BytesRingBuffer<P, C>) -> (r: usize)
        ensures
            r == (if active_in(ring.gate.registry@) <= usize::MAX {
                active_in(ring.gate.registry@) as int
            } else {
                usize::MAX as int
            }),
    {
        ring.gate.registry.active_count()
    }

    /// Whether `needed` bytes are free. Where they are not, the ring says so
    /// to the anchors, until a request finds room without looking at the
    /// registry.
    pub fn has_space<P, C>(&mut self, ring: &mut BytesRingBuffer<P, C>, needed: u64) -> (r: bool)
        requires
            old(self).inv(old(ring)),
            0 < needed < old(ring).cap(),
        ensures
            r == old(ring).gate@.open_for(needed as int, old(ring).cap()),
            old(self).core.asked(&final(self).core, old(ring).gate@, needed),
            final(self).intent_floor == old(self).intent_floor,
            *final(ring) == (BytesRingBuffer { starving: final(ring).starving, ..*old(ring) }),
            asked(*old(self), *old(ring), *final(ring), needed as int),
            final(self).inv(final(ring)),
            r == final(self).granted(needed as int),
    {
        if crate::registry::lacks_space(
            self.core.next_seq,
            needed,
            self.core.cached_min,
            self.core.mask + 1,
        ) {
            if self.core.rescan(&ring.gate, needed) {
                return true;
            }
            if ring.starving != needed {
                ring.starving = needed;
            }
            self.raised_starving = true;
            return false;
        }
        if self.raised_starving {
            self.raised_starving = false;
            ring.starving = 0;
        }
        proof {
            assert forall|k: int|
                0 <= k < ring.gate.registry@.len() && holds_back(
                    #[trigger] ring.gate.registry@[k],
                ) implies ring.gate.tail + needed - ring.gate.registry@[k].cursor <= ring.cap() by {
                assert(self.core.bounded(k, ring.gate.registry@[k].cursor));
            }
        }
        true
    }

    /// The frame of a message of `len` bytes at the producer's position: the
    /// padding and the whole.
    pub fn frame<P, C>(&self, ring: &BytesRingBuffer<P, C>, len: usize) -> (r: (u64, u64))
        requires
            self.inv(ring),
            len <= max_len(ring.cap()),
        ensures
            r.0 == pad_for(ring.gate.tail as int, len as int, ring.cap()),
            r.1 == ring.needed(len as int),
            0 < r.1 < ring.cap(),
    {
        proof {
            a_frame_fits_under_a_free_run(ring.gate.tail as int, len as int, ring.cap());
        }
        frame(self.core.next_seq, self.core.mask, len)
    }

    /// Write a granted frame and publish it: declare, write, commit.
    pub fn write_frame<P, C>(&mut self, ring: &mut BytesRingBuffer<P, C>, pad: u64, msg: &[u8])
        requires
            old(self).inv(old(ring)),
            msg@.len() <= max_len(old(ring).cap()),
            pad == pad_for(old(ring).gate.tail as int, msg@.len() as int, old(ring).cap()),
            old(self).granted(old(ring).needed(msg@.len() as int)),
            old(ring).gate.tail + old(ring).cap() <= MAX_CURSOR,
        ensures
            pushed(*old(ring), *final(ring), msg@, old(self).intent_floor),
            final(ring).starving == old(ring).starving,
            *final(self) == (BytesProducer { core: final(self).core, ..*old(self) }),
            final(self).core == (GateProducer {
                next_seq: (old(self).core.next_seq + old(ring).needed(
                    msg@.len() as int,
                )) as u64,
                ..old(self).core
            }),
            final(self).inv(final(ring)),
    {
        proof {
            a_frame_fits_under_a_free_run(ring.gate.tail as int, msg@.len() as int, ring.cap());
            lemma_records_fit(ring.cap(), msg@.len() as int);
        }
        let record: u64 = record_len(msg.len()) as u64;
        let total: u64 = pad + record;
        let new_tail: u64 = self.core.next_seq + total;
        let declared: u64 = if new_tail > self.intent_floor {
            new_tail
        } else {
            self.intent_floor
        };
        ring.tail_intent = declared;
        write_frame(&mut ring.buf, self.core.mask, self.core.next_seq, pad, msg);
        ring.latest = self.core.next_seq + pad;
        self.core.publish(&mut ring.gate, total);
        proof {
            lemma_log_after_push(
                old(ring).buf@,
                old(ring).frontier(),
                msg@,
                ring.frontier(),
                self.intent_floor,
            );
        }
    }

    /// Whether every known anchor has caught up.
    pub fn is_empty(&self) -> (r: bool)
        ensures
            r == (self.core.known_lag() == 0),
    {
        self.core.next_seq.wrapping_sub(self.core.cached_min) == 0
    }

    /// Bytes committed so far.
    pub fn tail(&self) -> (r: u64)
        ensures
            r == self.core.next_seq,
    {
        self.core.next_seq
    }

    /// Bytes in the ring.
    pub fn capacity(&self) -> (r: usize)
        requires
            ring_capacity(self.core.cap()),
        ensures
            r == self.core.cap(),
    {
        (self.core.mask + 1) as usize
    }

    /// The longest message.
    pub fn max_message_len(&self) -> (r: usize)
        requires
            ring_capacity(self.core.cap()),
        ensures
            r == max_len(self.core.cap()),
    {
        max_message_len((self.core.mask + 1) as usize)
    }

    /// Give the producing half up: consumers of both kinds drain what is left
    /// and then see that the ring is closed.
    pub fn close<P, C>(self, ring: &mut BytesRingBuffer<P, C>)
        requires
            self.inv(old(ring)),
        ensures
            *final(ring) == (BytesRingBuffer {
                gate: Gate { closed: true, ..old(ring).gate },
                ..*old(ring)
            }),
            final(ring).inv(),
    {
        ring.gate.close();
    }
}

/// What asking for `needed` bytes does to the starving word: it is cleared
/// where the copy of the slowest cursor leaves room, kept where a walk over
/// the registry finds room, and set where it does not.
pub open spec fn asked<P, C>(
    producer: BytesProducer,
    before: BytesRingBuffer<P, C>,
    after: BytesRingBuffer<P, C>,
    needed: int,
) -> bool {
    after.starving == if producer.granted(needed) {
        0
    } else if before.gate@.open_for(needed, before.cap()) {
        before.starving as int
    } else {
        needed
    }
}

/// What asking for `needed` bytes does: the producer takes a look at the
/// registry, or does not, and the starving word says whether it waits.
pub open spec fn asked_for<P, C>(
    producer: BytesProducer,
    ring: BytesRingBuffer<P, C>,
    producer_after: BytesProducer,
    ring_after: BytesRingBuffer<P, C>,
    needed: int,
) -> bool {
    &&& ring_after == (BytesRingBuffer { starving: ring_after.starving, ..ring })
    &&& asked(producer, ring, ring_after, needed)
    &&& producer.core.asked(&producer_after.core, ring.gate@, needed as u64)
    &&& producer_after.intent_floor == producer.intent_floor
    &&& producer_after.raised_starving == (ring_after.starving != 0)
}

/// What publishing `msg` does.
pub open spec fn sent<P, C>(
    producer: BytesProducer,
    ring: BytesRingBuffer<P, C>,
    producer_after: BytesProducer,
    ring_after: BytesRingBuffer<P, C>,
    msg: Seq<u8>,
) -> bool {
    let needed = ring.needed(msg.len() as int);
    &&& pushed(ring, ring_after, msg, producer.intent_floor)
    &&& asked(producer, ring, ring_after, needed)
    &&& producer.core.spent(&producer_after.core, ring.gate@, needed as u64)
    &&& producer_after.intent_floor == producer.intent_floor
    &&& producer_after.raised_starving == (ring_after.starving != 0)
}

/// What trying to publish `msg` comes to.
pub open spec fn try_pushed<P, C>(
    producer: BytesProducer,
    ring: BytesRingBuffer<P, C>,
    producer_after: BytesProducer,
    ring_after: BytesRingBuffer<P, C>,
    msg: Seq<u8>,
    r: bool,
) -> bool {
    &&& r == ring.has_room(msg.len() as int)
    &&& if r {
        sent(producer, ring, producer_after, ring_after, msg)
    } else {
        asked_for(producer, ring, producer_after, ring_after, ring.needed(msg.len() as int))
    }
}

/// What claiming the frame of a message of `len` bytes does.
pub open spec fn claimed<P, C>(
    producer: BytesProducer,
    ring: BytesRingBuffer<P, C>,
    producer_after: BytesProducer,
    ring_after: BytesRingBuffer<P, C>,
    len: usize,
    slot: WriteSlot,
) -> bool {
    &&& asked_for(producer, ring, producer_after, ring_after, ring.needed(len as int))
    &&& slot.len == len
    &&& slot.claims(&producer_after, &ring_after)
}

/// What trying to claim the frame of a message of `len` bytes comes to.
pub open spec fn try_claimed<P, C>(
    producer: BytesProducer,
    ring: BytesRingBuffer<P, C>,
    producer_after: BytesProducer,
    ring_after: BytesRingBuffer<P, C>,
    len: usize,
    r: Option<WriteSlot>,
) -> bool {
    match r {
        Some(slot) => ring.has_room(len as int) && claimed(
            producer,
            ring,
            producer_after,
            ring_after,
            len,
            slot,
        ),
        None => !ring.has_room(len as int) && asked_for(
            producer,
            ring,
            producer_after,
            ring_after,
            ring.needed(len as int),
        ),
    }
}

/// What storing `msg` in a claimed frame and publishing it does.
pub open spec fn committed<P, C>(
    producer: BytesProducer,
    ring: BytesRingBuffer<P, C>,
    producer_after: BytesProducer,
    ring_after: BytesRingBuffer<P, C>,
    msg: Seq<u8>,
) -> bool {
    &&& pushed(ring, ring_after, msg, producer.intent_floor)
    &&& ring_after.starving == ring.starving
    &&& producer_after == (BytesProducer {
        core: GateProducer {
            next_seq: (producer.core.next_seq + ring.needed(msg.len() as int)) as u64,
            ..producer.core
        },
        ..producer
    })
}

/// `after` is `before` with `msg` published; the starving word is left open.
pub open spec fn pushed<P, C>(
    before: BytesRingBuffer<P, C>,
    after: BytesRingBuffer<P, C>,
    msg: Seq<u8>,
    floor: u64,
) -> bool {
    &&& after.buf@ == with_frame(before.buf@, before.gate.tail as int, msg)
    &&& advanced(before.gate@, after.gate@, before.needed(msg.len() as int))
    &&& after.frontier() == crate::broadcast_bytes::advanced(
        before.frontier(),
        msg.len() as int,
        before.cap(),
        floor,
    )
    &&& after.producer_wait == before.producer_wait
    &&& after.consumer_wait == before.consumer_wait
}

/// A claimed frame. It is published by a commit; a claim that is let go
/// publishes nothing.
pub struct WriteSlot {
    pub pad: u64,
    pub len: usize,
}

impl WriteSlot {
    /// The claim is on the producer's next frame, which is granted.
    pub open spec fn claims<P, C>(
        &self,
        producer: &BytesProducer,
        ring: &BytesRingBuffer<P, C>,
    ) -> bool {
        &&& producer.inv(ring)
        &&& self.len <= max_len(ring.cap())
        &&& self.pad == pad_for(ring.gate.tail as int, self.len as int, ring.cap())
        &&& producer.granted(ring.needed(self.len as int))
    }

    /// Write `msg`, which has the claimed length, into the frame and publish
    /// it.
    pub fn commit<P, C>(
        self,
        producer: &mut BytesProducer,
        ring: &mut BytesRingBuffer<P, C>,
        msg: &[u8],
    )
        requires
            self.claims(old(producer), old(ring)),
            msg@.len() == self.len,
            old(ring).gate.tail + old(ring).cap() <= MAX_CURSOR,
        ensures
            committed(*old(producer), *old(ring), *final(producer), *final(ring), msg@),
            final(producer).inv(final(ring)),
    {
        producer.write_frame(ring, self.pad, msg);
    }
}

/// A consumer that holds the producer back.
pub struct BytesAnchor {
    pub core: GateConsumer,
    /// The table slot and the epoch at which it was claimed, where the anchor
    /// belongs to a shared-memory ring.
    pub shm: Option<(usize, u32)>,
}

impl BytesAnchor {
    /// The messages that the anchor will be handed, oldest first: all that
    /// was published since it joined and that it has not consumed.
    pub open spec fn pending<P, C>(&self, ring: &BytesRingBuffer<P, C>) -> Seq<Seq<u8>> {
        messages(ring.buf@, self.core.read_cursor as int, ring.gate.tail as int)
    }

    /// The anchor's cursors, and its copy of the tail, stand where frames or
    /// their records start.
    pub open spec fn aligned(&self, buf: Seq<u8>, tail: u64) -> bool {
        &&& framed(buf, self.core.published as int, self.core.write_cache as int)
        &&& framed(buf, self.core.read_cursor as int, self.core.write_cache as int)
        &&& framed(buf, self.core.write_cache as int, tail as int)
    }

    /// The anchor belongs to the ring.
    pub open spec fn inv<P, C>(&self, ring: &BytesRingBuffer<P, C>) -> bool {
        &&& ring.inv()
        &&& self.core.inv(ring.gate@)
        &&& self.core.cap() == ring.cap()
        &&& self.aligned(ring.buf@, ring.gate.tail)
    }

    /// The condition that `pop` waits for.
    pub open spec fn is_ready<P, C>(&self, ring: &BytesRingBuffer<P, C>) -> bool {
        self.core.read_cursor < ring.gate.tail || ring.gate.closed
    }

    /// The copy of the producer's cursor after a look for a message.
    pub open spec fn looked_up<P, C>(&self, ring: &BytesRingBuffer<P, C>) -> u64 {
        if self.core.write_cache == self.core.read_cursor {
            ring.gate.tail
        } else {
            self.core.write_cache
        }
    }

    /// Whether a release publishes at once: the producer is out of space, and
    /// this anchor is as far behind as the one it waits for.
    pub open spec fn urgent(&self, starving: u64) -> bool {
        starving != 0 && self.core.write_cache - self.core.published >= self.core.cap() - starving
    }

    /// Whether `pop` can be answered: a message is there, or none will come.
    pub fn ready<P, C>(&self, ring: &BytesRingBuffer<P, C>) -> (r: bool)
        requires
            self.inv(ring),
        ensures
            r == self.is_ready(ring),
    {
        ring.gate.tail != self.core.read_cursor || ring.gate.closed
    }

    /// Borrow the oldest message. Waits for [`ready`](Self::ready).
    pub fn pop<P, C>(&mut self, ring: &BytesRingBuffer<P, C>) -> (r: Result<Msg, Closed>)
        requires
            old(self).inv(ring),
            old(self).is_ready(ring),
        ensures
            match r {
                Ok(msg) => taken(*ring, *old(self), *final(self), msg),
                Err(_) => nothing(*ring, *old(self), *final(self)) && ring.gate.closed,
            },
            final(self).inv(ring),
    {
        if self.has_item(ring) {
            return Ok(self.next_msg(ring));
        }
        match self.check_closed(ring) {
            Err(e) => Err(e),
            Ok(()) => Ok(self.next_msg(ring)),
        }
    }

    /// Borrow the oldest message if there is one; `Closed` once the producer
    /// is gone and everything is consumed.
    pub fn try_pop<P, C>(&mut self, ring: &BytesRingBuffer<P, C>) -> (r: Result<
        Option<Msg>,
        Closed,
    >)
        requires
            old(self).inv(ring),
        ensures
            match r {
                Ok(Some(msg)) => taken(*ring, *old(self), *final(self), msg),
                Ok(None) => nothing(*ring, *old(self), *final(self)) && !ring.gate.closed,
                Err(_) => nothing(*ring, *old(self), *final(self)) && ring.gate.closed,
            },
            final(self).inv(ring),
    {
        if self.has_item(ring) {
            return Ok(Some(self.next_msg(ring)));
        }
        match self.check_closed(ring) {
            Err(e) => return Err(e),
            Ok(()) => {},
        }
        if self.core.available_cached() != 0 {
            return Ok(Some(self.next_msg(ring)));
        }
        Ok(None)
    }

    /// Consume a batch: messages until the ring is drained or the
    /// deferred-publish bound is reached. Each is handed to `f` in place,
    /// oldest first; the progress is published once, after the last. The
    /// number of messages.
    ///
    /// A message counts as consumed before `f` sees it, and where `f` unwinds
    /// the progress is published on the way out (see [`hand_over`]).
    pub fn drain<P, C, H: Handler<[u8]>>(&mut self, ring: &mut BytesRingBuffer<P, C>, f: H) -> (r:
        usize)
        requires
            old(self).inv(old(ring)),
            forall|m: &[u8], i: int|
                0 <= i < old(self).pending(old(ring)).len() && m@ == (#[trigger] old(self).pending(
                    old(ring),
                )[i]) ==> #[trigger] f.accepts(m),
        ensures
            ({
                let start = old(self).core.read_cursor as int;
                let end = drained_to(
                    old(ring).buf@,
                    start,
                    old(ring).gate.tail as int,
                    start,
                    batch_of(old(ring).cap(), MAX_PUBLISH_BATCH_BYTES as int),
                );
                &&& final(self).core.read_cursor == end
                &&& r == messages(old(ring).buf@, start, end).len()
                &&& exists|after: H| #[trigger]
                    took_runs(f, messages(old(ring).buf@, start, end), after) && has_resolved(after)
                &&& old(self).pending(old(ring)) == messages(old(ring).buf@, start, end)
                    + final(self).pending(final(ring))
                &&& final(self).core == (GateConsumer {
                    read_cursor: end as u64,
                    published: if old(ring).gate.tail == start {
                        old(self).core.published
                    } else {
                        end as u64
                    },
                    write_cache: old(ring).gate.tail,
                    ..old(self).core
                })
            }),
            moved(*old(ring), *final(ring), *old(self), *final(self)),
            final(self).inv(final(ring)),
    {
        proof {
            self.lemma_whole_run(ring.buf@, ring.gate.tail);
        }
        let end: u64 = self.core.refresh(&ring.gate);
        let mut f = f;
        let ghost g = f;
        let mut count: usize = 0;
        let ghost pending = old(self).pending(old(ring));
        let ghost buf = ring.buf@;
        let ghost start = self.core.read_cursor as int;
        let ghost tail = ring.gate.tail as int;
        let ghost batch_size = batch_of(ring.cap(), MAX_PUBLISH_BATCH_BYTES as int);
        if end.wrapping_sub(self.core.read_cursor) == 0 {
            proof {
                lemma_no_messages(buf, start);
                lemma_same_slot(*ring, *self);
                assert(old(self).pending(old(ring)) =~= messages(buf, start, start) + self.pending(
                    ring,
                ));
                assert(took_runs(g, messages(buf, start, start), f));
            }
            return 0;
        }
        let batch: u64 = publish_batch_bytes(self.core.mask + 1);
        let begin: u64 = self.core.read_cursor;
        proof {
            lemma_no_messages(buf, start);
            assert(messages(buf, start, tail) =~= messages(buf, start, start) + messages(
                buf,
                start,
                tail,
            ));
        }
        while end.wrapping_sub(self.core.read_cursor) != 0 && self.core.read_cursor.wrapping_sub(
            begin,
        ) < batch
            invariant
                old(self).inv(old(ring)),
                *ring == (BytesRingBuffer { gate: ring.gate, ..*old(ring) }),
                ring.gate.inv(),
                ring.gate@ == old(ring).gate@,
                buf == ring.buf@,
                start == old(self).core.read_cursor,
                begin == start,
                tail == ring.gate.tail,
                end == tail,
                batch == batch_size,
                batch_size == batch_of(ring.cap(), MAX_PUBLISH_BATCH_BYTES as int),
                framed(buf, self.core.read_cursor as int, tail),
                framed(buf, start, self.core.read_cursor as int),
                start <= self.core.read_cursor <= tail,
                self.core == (GateConsumer {
                    read_cursor: self.core.read_cursor,
                    write_cache: ring.gate.tail,
                    ..old(self).core
                }),
                self.shm == old(self).shm,
                pending == messages(buf, start, tail),
                forall|m: &[u8], i: int|
                    0 <= i < pending.len() && m@ == (#[trigger] pending[i])
                        ==> #[trigger] f.accepts(m),
                count == messages(buf, start, self.core.read_cursor as int).len(),
                8 * count <= self.core.read_cursor - start,
                self.core.read_cursor - start <= usize::MAX,
                took_runs(g, messages(buf, start, self.core.read_cursor as int), f),
                messages(buf, start, tail) == messages(buf, start, self.core.read_cursor as int)
                    + messages(buf, self.core.read_cursor as int, tail),
                drained_to(buf, start, tail, start, batch_size) == drained_to(
                    buf,
                    self.core.read_cursor as int,
                    tail,
                    start,
                    batch_size,
                ),
            decreases tail - self.core.read_cursor,
        {
            let ghost p = self.core.read_cursor as int;
            proof {
                lemma_frame_grows(buf, p);
                lemma_records_fit(buf.len() as int, len_at(buf, p));
            }
            let (cur, len, payload): (u64, usize, usize) = decode_record(
                &ring.buf,
                self.core.mask,
                self.core.read_cursor,
            );
            self.core.read_cursor = cur.wrapping_add(record_len(len) as u64);
            let msg: &[u8] = vstd::slice::slice_subrange(
                ring.buf.as_slice(),
                payload,
                payload + len,
            );
            proof {
                assert(messages(buf, p, tail)[0] == message_at(buf, p));
                assert(pending[count as int] == message_at(buf, p));
                assert(msg@ == pending[count as int]);
            }
            let place: &mut u64 = ring.gate.registry.place(self.core.slot);
            let ghost mid = f;
            hand_over(&mut self.core, Some(place), &mut f, msg);
            count += 1;
            proof {
                lemma_same_slot(*old(ring), *old(self));
                let e = end_of(buf, p);
                lemma_took_run(g, messages(buf, start, p), mid, msg, f);
                assert(self.core.read_cursor == e);
                lemma_run_extends(buf, start, p, e);
                lemma_run_ends(buf, e, tail);
                assert(messages(buf, p, tail) == seq![message_at(buf, p)] + messages(buf, e, tail));
                assert(messages(buf, start, tail) =~= messages(buf, start, e) + messages(
                    buf,
                    e,
                    tail,
                ));
            }
        }
        self.core.flush_pending(&mut ring.gate);
        proof {
            assert(framed(buf, tail, tail));
            if tail != start {
                assert(self.core.published == self.core.read_cursor);
            }
        }
        count
    }

    /// Register another anchor. It is handed what is published from now on.
    pub fn subscribe_anchor<P, C>(&self, ring: &mut BytesRingBuffer<P, C>) -> (r: Result<
        BytesAnchor,
        SubscribeError,
    >)
        requires
            self.inv(old(ring)),
        ensures
            subscribed(*old(ring), *final(ring), r),
            self.inv(final(ring)),
            self.pending(final(ring)) == self.pending(old(ring)),
            r matches Ok(other) ==> other.core.slot.at() != self.core.slot.at(),
    {
        let r = subscribe_from(ring, self.core.mask);
        proof {
            if r is Ok {
                a_join_keeps_everyone(
                    arbitrary(),
                    self.core,
                    old(ring).gate@,
                    ring.gate@,
                    r->Ok_0.core.slot.at(),
                );
            }
        }
        r
    }

    /// An observer, which sees what is published from now on.
    pub fn subscribe_observer<P, C: Default>(&self, ring: &BytesRingBuffer<P, C>) -> (r:
        BytesObserver<C>)
        requires
            self.inv(ring),
        ensures
            observing(ring, r.reader),
            r.inv(ring),
    {
        observe_from(ring)
    }

    /// Whether nothing is pending.
    pub fn is_empty<P, C>(&self, ring: &BytesRingBuffer<P, C>) -> (r: bool)
        requires
            self.inv(ring),
        ensures
            r == (self.core.unread(ring.gate@) == 0),
    {
        ring.gate.tail.wrapping_sub(self.core.read_cursor) == 0
    }

    /// Bytes in the ring.
    pub fn capacity(&self) -> (r: usize)
        requires
            ring_capacity(self.core.cap()),
        ensures
            r == self.core.cap(),
    {
        (self.core.mask + 1) as usize
    }

    /// The longest message.
    pub fn max_message_len(&self) -> (r: usize)
        requires
            ring_capacity(self.core.cap()),
        ensures
            r == max_len(self.core.cap()),
    {
        max_message_len((self.core.mask + 1) as usize)
    }

    /// The table slot of an anchor of a shared-memory ring.
    pub fn shm_slot(&self) -> (r: Option<usize>)
        ensures
            r == (match self.shm {
                Some((slot, _)) => Some(slot),
                None => None,
            }),
    {
        match self.shm {
            Some((slot, _)) => Some(slot),
            None => None,
        }
    }

    /// The table slot of an anchor of a shared-memory ring, and the epoch at
    /// which it was claimed: what proves an occupancy to whoever retires it.
    pub fn shm_slot_epoch(&self) -> (r: Option<(usize, u32)>)
        ensures
            r == self.shm,
    {
        self.shm
    }

    /// From its read cursor on, an anchor has a run of frames before it.
    pub proof fn lemma_whole_run(&self, buf: Seq<u8>, tail: u64)
        requires
            byte_capacity(buf.len() as int),
            self.aligned(buf, tail),
            self.core.write_cache <= tail,
        ensures
            framed(buf, self.core.read_cursor as int, tail as int),
            framed(buf, self.core.published as int, tail as int),
    {
        lemma_runs_join(
            buf,
            self.core.read_cursor as int,
            self.core.write_cache as int,
            tail as int,
        );
        lemma_runs_join(
            buf,
            self.core.published as int,
            self.core.write_cache as int,
            tail as int,
        );
    }

    /// Whether a message is pending.
    pub fn has_item<P, C>(&mut self, ring: &BytesRingBuffer<P, C>) -> (r: bool)
        requires
            old(self).inv(ring),
        ensures
            r == (old(self).core.read_cursor < ring.gate.tail),
            *final(self) == (BytesAnchor {
                core: GateConsumer { write_cache: old(self).looked_up(ring), ..old(self).core },
                ..*old(self)
            }),
            final(self).inv(ring),
            r ==> final(self).core.read_cursor < final(self).core.write_cache,
    {
        proof {
            self.lemma_whole_run(ring.buf@, ring.gate.tail);
        }
        self.core.has_item(&ring.gate)
    }

    /// `Closed` where the producer is gone and a fresh look finds nothing.
    pub fn check_closed<P, C>(&mut self, ring: &BytesRingBuffer<P, C>) -> (r: Result<(), Closed>)
        requires
            old(self).inv(ring),
        ensures
            r is Err == (ring.gate.closed && old(self).core.read_cursor == ring.gate.tail),
            *final(self) == (BytesAnchor {
                core: GateConsumer {
                    write_cache: if ring.gate.closed {
                        ring.gate.tail
                    } else {
                        old(self).core.write_cache
                    },
                    ..old(self).core
                },
                ..*old(self)
            }),
            final(self).inv(ring),
    {
        if ring.gate.closed {
            proof {
                self.lemma_whole_run(ring.buf@, ring.gate.tail);
            }
            self.core.refresh(&ring.gate);
            if self.core.available_cached() == 0 {
                return Err(Closed);
            }
        }
        Ok(())
    }

    /// Step past padding and hand the record out.
    pub fn next_msg<P, C>(&mut self, ring: &BytesRingBuffer<P, C>) -> (r: Msg)
        requires
            old(self).inv(ring),
            old(self).core.read_cursor < old(self).core.write_cache,
        ensures
            *final(self) == (BytesAnchor {
                core: GateConsumer {
                    read_cursor: start_of(ring.buf@, old(self).core.read_cursor as int) as u64,
                    ..old(self).core
                },
                ..*old(self)
            }),
            final(self).inv(ring),
            r.borrows(final(self), ring),
            old(self).pending(ring).len() > 0,
            r.content(ring) == old(self).pending(ring)[0],
            final(self).pending(ring) == old(self).pending(ring),
    {
        let ghost p = self.core.read_cursor as int;
        let ghost buf = ring.buf@;
        proof {
            self.lemma_whole_run(buf, ring.gate.tail);
            lemma_frame_grows(buf, p);
            lemma_skip_padding(buf, p, self.core.write_cache as int);
            lemma_skip_padding(buf, p, ring.gate.tail as int);
        }
        let (cur, len, payload): (u64, usize, usize) = decode_record(
            &ring.buf,
            self.core.mask,
            self.core.read_cursor,
        );
        self.core.read_cursor = cur;
        Msg { payload, len }
    }

    /// Consume `amount` bytes: the record at the read cursor. The progress is
    /// published where a producer out of space waits for it, where the known
    /// messages are drained, or where the bound on deferred progress is
    /// reached.
    pub fn advance<P, C>(&mut self, ring: &mut BytesRingBuffer<P, C>, amount: u64)
        requires
            old(self).inv(old(ring)),
            old(self).core.read_cursor < old(self).core.write_cache,
            old(self).core.read_cursor + amount == end_of(
                old(ring).buf@,
                old(self).core.read_cursor as int,
            ),
        ensures
            final(self).core == (GateConsumer {
                read_cursor: (old(self).core.read_cursor + amount) as u64,
                published: if old(self).core.publishes(
                    amount,
                    old(self).urgent(old(ring).starving),
                    batch_of(old(ring).cap(), MAX_PUBLISH_BATCH_BYTES as int) as u64,
                ) {
                    (old(self).core.read_cursor + amount) as u64
                } else {
                    old(self).core.published
                },
                ..old(self).core
            }),
            final(self).shm == old(self).shm,
            final(self).pending(final(ring)) == old(self).pending(old(ring)).drop_first(),
            moved(*old(ring), *final(ring), *old(self), *final(self)),
            final(self).inv(final(ring)),
    {
        let capacity: u64 = self.core.mask + 1;
        let span: u64 = ring.starving;
        let publish_now: bool = span != 0 && self.core.write_cache.wrapping_sub(self.core.published)
            >= capacity - span;
        let batch: u64 = publish_batch_bytes(capacity);
        let ghost p = self.core.read_cursor as int;
        let ghost buf = ring.buf@;
        proof {
            self.lemma_whole_run(buf, ring.gate.tail);
            lemma_frame_grows(buf, p);
            assert(messages(buf, p, ring.gate.tail as int).drop_first() =~= messages(
                buf,
                end_of(buf, p),
                ring.gate.tail as int,
            ));
        }
        self.core.advance(&mut ring.gate, amount, publish_now, batch);
    }

    /// Leave the ring. The slot no longer holds the producer back.
    pub fn detach<P, C>(self, ring: &mut BytesRingBuffer<P, C>)
        requires
            self.inv(old(ring)),
        ensures
            *final(ring) == (BytesRingBuffer { gate: final(ring).gate, ..*old(ring) }),
            stored(
                old(ring).gate@,
                final(ring).gate@,
                self.core.slot.at(),
                GateSlot { active: false, cursor: DETACHED },
            ),
            final(ring).inv(),
    {
        self.core.detach(&mut ring.gate);
    }
}

/// Where a batch that began at `start` ends: behind the first frame that
/// reaches the batch size, or at the end.
pub open spec fn drained_to(buf: Seq<u8>, p: int, end: int, start: int, batch: int) -> int
    decreases end - p,
{
    if p < end_of(buf, p) <= end && p - start < batch {
        drained_to(buf, end_of(buf, p), end, start, batch)
    } else {
        p
    }
}

/// The anchor was handed its oldest pending message and stands at its record.
pub open spec fn taken<P, C>(
    ring: BytesRingBuffer<P, C>,
    before: BytesAnchor,
    after: BytesAnchor,
    msg: Msg,
) -> bool {
    &&& before.core.read_cursor < ring.gate.tail
    &&& before.pending(&ring).len() > 0
    &&& msg.borrows(&after, &ring)
    &&& msg.content(&ring) == before.pending(&ring)[0]
    &&& after.pending(&ring) == before.pending(&ring)
    &&& after == BytesAnchor {
        core: GateConsumer {
            read_cursor: start_of(ring.buf@, before.core.read_cursor as int) as u64,
            write_cache: before.looked_up(&ring),
            ..before.core
        },
        ..before
    }
}

/// The anchor has nothing pending.
pub open spec fn nothing<P, C>(
    ring: BytesRingBuffer<P, C>,
    before: BytesAnchor,
    after: BytesAnchor,
) -> bool {
    &&& before.core.read_cursor == ring.gate.tail
    &&& after == BytesAnchor {
        core: GateConsumer { write_cache: ring.gate.tail, ..before.core },
        ..before
    }
}

/// An anchor moves forward in the ring: the ring changes in that anchor's
/// slot alone, which now holds the cursor that the anchor published.
pub open spec fn moved<P, C>(
    ring_before: BytesRingBuffer<P, C>,
    ring_after: BytesRingBuffer<P, C>,
    before: BytesAnchor,
    after: BytesAnchor,
) -> bool {
    &&& ring_after == (BytesRingBuffer { gate: ring_after.gate, ..ring_before })
    &&& stored(
        ring_before.gate@,
        ring_after.gate@,
        before.core.slot.at(),
        GateSlot { active: true, cursor: after.core.published },
    )
    &&& after.core.slot == before.core.slot
    &&& after.core.mask == before.core.mask
    &&& before.core.published <= after.core.published <= ring_before.gate.tail
}

proof fn lemma_same_slot<P, C>(ring: BytesRingBuffer<P, C>, anchor: BytesAnchor)
    requires
        anchor.inv(&ring),
    ensures
        ring.gate.registry@ == ring.gate.registry@.update(
            anchor.core.slot.at(),
            GateSlot { active: true, cursor: anchor.core.published },
        ),
{
    assert(ring.gate.registry@ =~= ring.gate.registry@.update(
        anchor.core.slot.at(),
        GateSlot { active: true, cursor: anchor.core.published },
    ));
}

/// A borrowed message. The anchor steps past it when the borrow is released.
pub struct Msg {
    /// The offset of the message in the buffer.
    pub payload: usize,
    pub len: usize,
}

impl Msg {
    /// The bytes of the message.
    pub open spec fn content<P, C>(&self, ring: &BytesRingBuffer<P, C>) -> Seq<u8> {
        ring.buf@.subrange(self.payload as int, self.payload + self.len)
    }

    /// The borrow is of the record at the anchor's read cursor.
    pub open spec fn borrows<P, C>(
        &self,
        anchor: &BytesAnchor,
        ring: &BytesRingBuffer<P, C>,
    ) -> bool {
        let p = anchor.core.read_cursor as int;
        &&& anchor.inv(ring)
        &&& anchor.core.read_cursor < anchor.core.write_cache
        &&& start_of(ring.buf@, p) == p
        &&& self.len == len_at(ring.buf@, p)
        &&& self.payload + self.len <= ring.cap()
        &&& self.content(ring) == message_at(ring.buf@, p)
    }

    /// The bytes of the message, in place.
    pub fn bytes<'a, P, C>(
        &self,
        anchor: &BytesAnchor,
        ring: &'a BytesRingBuffer<P, C>,
    ) -> (r: &'a [u8])
        requires
            self.borrows(anchor, ring),
        ensures
            r@ == self.content(ring),
    {
        let end: usize = ring.buf.len();
        vstd::slice::slice_subrange(ring.buf.as_slice(), self.payload, self.payload + self.len)
    }

    /// Step past the message.
    pub fn release<P, C>(self, anchor: &mut BytesAnchor, ring: &mut BytesRingBuffer<P, C>)
        requires
            self.borrows(old(anchor), old(ring)),
        ensures
            final(anchor).core == (GateConsumer {
                read_cursor: (old(anchor).core.read_cursor + record(self.len as int)) as u64,
                published: if old(anchor).core.publishes(
                    record(self.len as int) as u64,
                    old(anchor).urgent(old(ring).starving),
                    batch_of(old(ring).cap(), MAX_PUBLISH_BATCH_BYTES as int) as u64,
                ) {
                    (old(anchor).core.read_cursor + record(self.len as int)) as u64
                } else {
                    old(anchor).core.published
                },
                ..old(anchor).core
            }),
            final(anchor).shm == old(anchor).shm,
            final(anchor).pending(final(ring)) == old(anchor).pending(old(ring)).drop_first(),
            moved(*old(ring), *final(ring), *old(anchor), *final(anchor)),
            final(anchor).inv(final(ring)),
    {
        proof {
            lemma_records_fit(ring.cap(), self.len as int);
        }
        let amount: u64 = record_len(self.len) as u64;
        anchor.advance(ring, amount);
    }
}

/// A consumer that the producer ignores.
pub struct BytesObserver<C = YieldWait> {
    pub reader: ByteReader,
    pub wait: C,
}

impl<W> BytesObserver<W> {
    /// The observer belongs to the ring.
    pub open spec fn inv<P, C>(&self, ring: &BytesRingBuffer<P, C>) -> bool {
        ring.inv() && self.reader.inv(ring.buf@, ring.frontier())
    }

    /// No byte that the observer has not read has been overwritten.
    pub open spec fn in_window<P, C>(&self, ring: &BytesRingBuffer<P, C>) -> bool {
        in_window(ring.frontier(), self.reader.pos as int, self.reader.cap())
    }

    /// The messages that the observer has not read, oldest first, while it
    /// has not been overrun.
    pub open spec fn pending<P, C>(&self, ring: &BytesRingBuffer<P, C>) -> Seq<Seq<u8>> {
        self.reader.pending(ring.buf@, ring.frontier())
    }

    /// The condition that `pop` and `pop_into` wait for.
    pub open spec fn is_ready<P, C>(&self, ring: &BytesRingBuffer<P, C>) -> bool {
        self.reader.pos < ring.gate.tail || ring.gate.closed
    }

    /// Whether `pop` and `pop_into` can be answered.
    pub fn ready<P, C>(&self, ring: &BytesRingBuffer<P, C>) -> (r: bool)
        ensures
            r == self.is_ready(ring),
    {
        ring.gate.tail > self.reader.pos || ring.gate.closed
    }

    /// The next message. Waits for [`ready`](Self::ready).
    pub fn pop<P, C>(&mut self, ring: &BytesRingBuffer<P, C>) -> (r: Result<Vec<u8>, PopError>)
        requires
            old(self).inv(ring),
            old(self).is_ready(ring),
        ensures
            match r {
                Ok(msg) => seen(*ring, old(self).reader, final(self).reader, msg@),
                Err(PopError::Lagged { missed_bytes }) => overrun(
                    *ring,
                    old(self).reader,
                    final(self).reader,
                    missed_bytes,
                ),
                Err(PopError::Closed) => ring.gate.closed && idle(
                    *ring,
                    old(self).reader,
                    final(self).reader,
                ),
            },
            final(self).wait == old(self).wait,
            final(self).inv(ring),
    {
        let mut out: Vec<u8> = Vec::new();
        match self.pop_into(ring, &mut out) {
            Ok(()) => Ok(out),
            Err(e) => Err(e),
        }
    }

    /// The next message, in `out`, which is empty where there is none. Waits
    /// for [`ready`](Self::ready).
    pub fn pop_into<P, C>(&mut self, ring: &BytesRingBuffer<P, C>, out: &mut Vec<u8>) -> (r: Result<
        (),
        PopError,
    >)
        requires
            old(self).inv(ring),
            old(self).is_ready(ring),
        ensures
            match r {
                Ok(()) => seen(*ring, old(self).reader, final(self).reader, final(out)@),
                Err(PopError::Lagged { missed_bytes }) => overrun(
                    *ring,
                    old(self).reader,
                    final(self).reader,
                    missed_bytes,
                ) && final(out)@.len() == 0,
                Err(PopError::Closed) => ring.gate.closed && idle(
                    *ring,
                    old(self).reader,
                    final(self).reader,
                ) && final(out)@.len() == 0,
            },
            final(self).wait == old(self).wait,
            final(self).inv(ring),
    {
        out.clear();
        if self.reader.has_item(ring.gate.tail) {
            return self.read_record(ring, out);
        }
        if self.reader.drained(ring.gate.tail, ring.gate.closed) {
            return Err(PopError::Closed);
        }
        self.read_record(ring, out)
    }

    /// The next message if there is one.
    pub fn try_pop<P, C>(&mut self, ring: &BytesRingBuffer<P, C>) -> (r: Result<
        Option<Vec<u8>>,
        PopError,
    >)
        requires
            old(self).inv(ring),
        ensures
            match r {
                Ok(Some(msg)) => seen(*ring, old(self).reader, final(self).reader, msg@),
                Ok(None) => !ring.gate.closed && idle(
                    *ring,
                    old(self).reader,
                    final(self).reader,
                ),
                Err(PopError::Lagged { missed_bytes }) => overrun(
                    *ring,
                    old(self).reader,
                    final(self).reader,
                    missed_bytes,
                ),
                Err(PopError::Closed) => ring.gate.closed && idle(
                    *ring,
                    old(self).reader,
                    final(self).reader,
                ),
            },
            final(self).wait == old(self).wait,
            final(self).inv(ring),
    {
        let mut out: Vec<u8> = Vec::new();
        match self.try_pop_into(ring, &mut out) {
            Ok(true) => Ok(Some(out)),
            Ok(false) => Ok(None),
            Err(e) => Err(e),
        }
    }

    /// The next message if there is one, in `out`; `false`, and `out` as it
    /// was, if there is none.
    pub fn try_pop_into<P, C>(
        &mut self,
        ring: &BytesRingBuffer<P, C>,
        out: &mut Vec<u8>,
    ) -> (r: Result<bool, PopError>)
        requires
            old(self).inv(ring),
        ensures
            match r {
                Ok(true) => seen(*ring, old(self).reader, final(self).reader, final(out)@),
                Ok(false) => !ring.gate.closed && idle(
                    *ring,
                    old(self).reader,
                    final(self).reader,
                ) && final(out)@ == old(out)@,
                Err(PopError::Lagged { missed_bytes }) => overrun(
                    *ring,
                    old(self).reader,
                    final(self).reader,
                    missed_bytes,
                ) && final(out)@ == old(out)@,
                Err(PopError::Closed) => ring.gate.closed && idle(
                    *ring,
                    old(self).reader,
                    final(self).reader,
                ) && final(out)@ == old(out)@,
            },
            final(self).wait == old(self).wait,
            final(self).inv(ring),
    {
        if self.reader.has_item(ring.gate.tail) {
            return match self.read_record(ring, out) {
                Ok(()) => Ok(true),
                Err(e) => Err(e),
            };
        }
        if self.reader.drained(ring.gate.tail, ring.gate.closed) {
            return Err(PopError::Closed);
        }
        if self.reader.available() {
            return match self.read_record(ring, out) {
                Ok(()) => Ok(true),
                Err(e) => Err(e),
            };
        }
        Ok(false)
    }

    fn read_record<P, C>(&mut self, ring: &BytesRingBuffer<P, C>, out: &mut Vec<u8>) -> (r: Result<
        (),
        PopError,
    >)
        requires
            old(self).inv(ring),
            old(self).reader.pos < ring.gate.tail,
            old(self).reader.tail_cache > old(self).reader.pos,
        ensures
            match r {
                Ok(()) => seen(*ring, old(self).reader, final(self).reader, final(out)@),
                Err(PopError::Lagged { missed_bytes }) => overrun(
                    *ring,
                    old(self).reader,
                    final(self).reader,
                    missed_bytes,
                ) && final(out)@ == old(out)@,
                Err(PopError::Closed) => false,
            },
            final(self).wait == old(self).wait,
            final(self).inv(ring),
    {
        match self.reader.read_record(&ring.buf, ring.counters(), out) {
            Ok(()) => Ok(()),
            Err(missed_bytes) => Err(PopError::Lagged { missed_bytes }),
        }
    }

    /// Skip everything committed so far; the number of bytes skipped.
    pub fn skip_to_latest<P, C>(&mut self, ring: &BytesRingBuffer<P, C>) -> (skipped: u64)
        requires
            old(self).inv(ring),
        ensures
            old(self).reader.skips(ring.gate.tail, &final(self).reader, skipped),
            skipped == ring.gate.tail - old(self).reader.pos,
            final(self).reader == (ByteReader {
                pos: ring.gate.tail,
                tail_cache: ring.gate.tail,
                ..old(self).reader
            }),
            final(self).wait == old(self).wait,
            final(self).inv(ring),
            final(self).pending(ring).len() == 0,
    {
        self.reader.skip_to_latest(ring.gate.tail)
    }

    /// How many committed bytes the observer has not read.
    pub fn lag<P, C>(&self, ring: &BytesRingBuffer<P, C>) -> (r: u64)
        requires
            self.inv(ring),
        ensures
            r == ring.gate.tail - self.reader.pos,
    {
        self.reader.lag(ring.gate.tail)
    }

    /// Another observer, which sees what is published from now on.
    pub fn subscribe_observer<P, C>(&self, ring: &BytesRingBuffer<P, C>) -> (r: BytesObserver<
        W,
    >) where W: Default
        requires
            self.inv(ring),
        ensures
            observing(ring, r.reader),
            r.inv(ring),
    {
        observe_from(ring)
    }

    /// Bytes in the ring.
    pub fn capacity(&self) -> (r: usize)
        requires
            ring_capacity(self.reader.cap()),
        ensures
            r == self.reader.cap(),
    {
        (self.reader.mask + 1) as usize
    }

    /// The longest message.
    pub fn max_message_len(&self) -> (r: usize)
        requires
            ring_capacity(self.reader.cap()),
        ensures
            r == max_len(self.reader.cap()),
    {
        max_message_len((self.reader.mask + 1) as usize)
    }
}

/// The reader was handed its oldest pending message and stands behind its
/// frame.
pub open spec fn seen<P, C>(
    ring: BytesRingBuffer<P, C>,
    before: ByteReader,
    after: ByteReader,
    msg: Seq<u8>,
) -> bool {
    let pending = before.pending(ring.buf@, ring.frontier());
    &&& before.pos < ring.gate.tail
    &&& in_window(ring.frontier(), before.pos as int, before.cap())
    &&& pending.len() > 0
    &&& msg == pending[0]
    &&& after.pending(ring.buf@, ring.frontier()) == pending.drop_first()
    &&& after.pos == end_of(ring.buf@, before.pos as int)
    &&& after == ByteReader {
        pos: after.pos,
        tail_cache: before.looked_up(ring.gate.tail),
        ..before
    }
}

/// The reader was overrun and skipped exactly the reported number of bytes.
pub open spec fn overrun<P, C>(
    ring: BytesRingBuffer<P, C>,
    before: ByteReader,
    after: ByteReader,
    missed: u64,
) -> bool {
    &&& before.pos < ring.gate.tail
    &&& !in_window(ring.frontier(), before.pos as int, before.cap())
    &&& after == ByteReader {
        pos: before.resumed(ring.frontier()),
        tail_cache: ring.gate.tail,
        ..before
    }
    &&& before.pos + missed == after.pos
}

/// Nothing was committed past the reader.
pub open spec fn idle<P, C>(
    ring: BytesRingBuffer<P, C>,
    before: ByteReader,
    after: ByteReader,
) -> bool {
    &&& before.pos == ring.gate.tail
    &&& after == ByteReader { tail_cache: ring.gate.tail, ..before }
}

/// Every anchor is handed every message: a push appends its message to what
/// each registered anchor has pending, and takes nothing away.
pub proof fn a_push_reaches_every_anchor<P, C>(
    producer: BytesProducer,
    anchor: BytesAnchor,
    before: BytesRingBuffer<P, C>,
    after: BytesRingBuffer<P, C>,
    msg: Seq<u8>,
)
    requires
        producer.inv(&before),
        anchor.inv(&before),
        msg.len() <= max_len(before.cap()),
        before.has_room(msg.len() as int),
        pushed(before, after, msg, producer.intent_floor),
        after.inv(),
    ensures
        anchor.inv(&after),
        anchor.pending(&after) == anchor.pending(&before).push(msg),
{
    let k = anchor.core.slot.at();
    assert(holds_back(before.gate.registry@[k]));
    let cap = before.cap();
    let tail = before.gate.tail as int;
    let a = before.buf@;
    let b = after.buf@;
    let published = anchor.core.published as int;
    let read = anchor.core.read_cursor as int;
    let cache = anchor.core.write_cache as int;
    a_frame_round_trips(a, tail, msg);
    lemma_frame_fits(tail, msg.len() as int, cap);
    anchor.lemma_whole_run(a, before.gate.tail);
    assert(agree(a, b, published, tail));
    assert(agree(a, b, read, tail));
    lemma_run_agrees(a, b, published, cache);
    lemma_run_agrees(a, b, read, cache);
    lemma_run_agrees(a, b, cache, tail);
    lemma_run_agrees(a, b, read, tail);
    lemma_run_extends(b, cache, tail, after.gate.tail as int);
    lemma_run_extends(b, read, tail, after.gate.tail as int);
}

/// An anchor that moves forward, or leaves, keeps the producer going and
/// takes nothing away from another anchor or from an observer.
pub proof fn an_anchor_disturbs_nobody<P, C, W>(
    producer: BytesProducer,
    mover: BytesAnchor,
    other: BytesAnchor,
    observer: BytesObserver<W>,
    before: BytesRingBuffer<P, C>,
    after: BytesRingBuffer<P, C>,
    slot: GateSlot,
)
    requires
        producer.inv(&before),
        mover.inv(&before),
        after == (BytesRingBuffer { gate: after.gate, ..before }),
        stored(before.gate@, after.gate@, mover.core.slot.at(), slot),
        holds_back(slot) ==> mover.core.published <= slot.cursor <= before.gate.tail,
    ensures
        after.inv(),
        producer.inv(&after),
        other.inv(&before) && other.core.slot.at() != mover.core.slot.at() ==> other.inv(&after)
            && other.pending(&after) == other.pending(&before),
        observer.inv(&before) ==> observer.inv(&after),
{
    progress_keeps_the_producer(producer.core, mover.core, before.gate@, after.gate@, slot);
    if other.inv(&before) && other.core.slot.at() != mover.core.slot.at() {
        progress_keeps_other_consumers(mover.core, other.core, before.gate@, after.gate@, slot);
    }
}

/// A join disturbs neither the producer, nor an anchor that was there before,
/// nor an observer.
pub proof fn a_join_disturbs_nobody<P, C, W>(
    producer: BytesProducer,
    other: BytesAnchor,
    observer: BytesObserver<W>,
    joiner: BytesAnchor,
    before: BytesRingBuffer<P, C>,
    after: BytesRingBuffer<P, C>,
)
    requires
        subscribed(before, after, Ok(joiner)),
    ensures
        producer.inv(&before) ==> producer.inv(&after),
        other.inv(&before) ==> other.inv(&after) && other.pending(&after) == other.pending(&before)
            && other.core.slot.at() != joiner.core.slot.at(),
        observer.inv(&before) ==> observer.inv(&after),
{
    a_join_keeps_everyone(
        producer.core,
        other.core,
        before.gate@,
        after.gate@,
        joiner.core.slot.at(),
    );
}

/// A push appends its message to what every observer has pending, except for
/// those that it overruns; an overrun observer skips at least one byte and
/// lands on the last record, which it can read.
pub proof fn an_observer_is_appended_to_or_overrun<P, C, W>(
    producer: BytesProducer,
    observer: BytesObserver<W>,
    before: BytesRingBuffer<P, C>,
    after: BytesRingBuffer<P, C>,
    msg: Seq<u8>,
)
    requires
        producer.inv(&before),
        observer.inv(&before),
        msg.len() <= max_len(before.cap()),
        before.gate.tail + before.cap() <= MAX_CURSOR,
        pushed(before, after, msg, producer.intent_floor),
        after.inv(),
    ensures
        observer.inv(&after),
        observer.in_window(&after) ==> observer.in_window(&before) && observer.pending(&after)
            == observer.pending(&before).push(msg),
        !observer.in_window(&after) ==> {
            let resumed = observer.reader.resumed(after.frontier());
            &&& observer.reader.pos < resumed
            &&& resumed == after.latest
            &&& in_window(after.frontier(), resumed as int, after.cap())
            &&& framed(after.buf@, resumed as int, after.gate.tail as int)
        },
{
    lemma_frame_fits(before.gate.tail as int, msg.len() as int, before.cap());
    lemma_reader_after_push(
        before.buf@,
        before.frontier(),
        msg,
        after.frontier(),
        observer.reader,
    );
    if !observer.in_window(&after) {
        an_overrun_reader_recovers(after.buf@, after.frontier(), observer.reader);
    }
}

/// A producer that waits for room takes nothing away from an observer: what is
/// there stays readable, however long the wait.
pub proof fn a_waiting_producer_disturbs_no_observer<P, C, W>(
    observer: BytesObserver<W>,
    before: BytesRingBuffer<P, C>,
    after: BytesRingBuffer<P, C>,
)
    requires
        observer.inv(&before),
        after == (BytesRingBuffer { starving: after.starving, ..before }),
        after.inv(),
    ensures
        observer.inv(&after),
        observer.in_window(&after) == observer.in_window(&before),
        observer.pending(&after) == observer.pending(&before),
{
}

/// The anchor that a starving producer waits for publishes with its next
/// release, once its copy of the tail is up to date.
pub proof fn a_gating_anchor_answers_a_starving_producer<P, C>(
    anchor: BytesAnchor,
    ring: BytesRingBuffer<P, C>,
)
    requires
        anchor.inv(&ring),
        ring.starving != 0,
        anchor.core.write_cache == ring.gate.tail,
        ring.gate.tail + ring.starving - anchor.core.published > ring.cap(),
    ensures
        anchor.urgent(ring.starving),
{
}

/// The cursor that an anchor has published is where a frame, or the record of
/// one, starts: whoever takes over from there finds messages.
pub proof fn a_published_cursor_is_a_record_boundary<P, C>(
    anchor: BytesAnchor,
    ring: BytesRingBuffer<P, C>,
)
    requires
        anchor.inv(&ring),
    ensures
        framed(ring.buf@, anchor.core.published as int, ring.gate.tail as int),
{
    anchor.lemma_whole_run(ring.buf@, ring.gate.tail);
}

/// An anchor can take what is pending after the producer has left.
pub proof fn closing_takes_nothing_away<P, C>(
    producer: BytesProducer,
    anchor: BytesAnchor,
    before: BytesRingBuffer<P, C>,
    after: BytesRingBuffer<P, C>,
)
    requires
        anchor.inv(&before),
        after == (BytesRingBuffer { gate: Gate { closed: true, ..before.gate }, ..before }),
    ensures
        anchor.inv(&after),
        anchor.pending(&after) == anchor.pending(&before),
        producer.inv(&before) ==> producer.inv(&after),
{
    assert(after.gate@.slots == before.gate@.slots);
}

/// The ring as a reader that runs beside the producer sees it.
pub open spec fn log_moment<P, C>(ring: BytesRingBuffer<P, C>) -> LogMoment {
    LogMoment {
        tail: ring.gate.tail as int,
        intent: ring.tail_intent as int,
        buf: ring.buf@,
    }
}

/// What a push writes, at any point of its course, is what it has declared
/// and not committed; it declares before it writes and commits last. An
/// observer that looks meanwhile is shown a run for which its verdict is
/// right.
pub proof fn a_push_declares_before_it_writes<P, C>(
    producer: BytesProducer,
    before: BytesRingBuffer<P, C>,
    after: BytesRingBuffer<P, C>,
    msg: Seq<u8>,
) -> (run: Seq<LogMoment>)
    requires
        producer.inv(&before),
        msg.len() <= max_len(before.cap()),
        before.gate.tail + before.cap() <= MAX_CURSOR,
        pushed(before, after, msg, producer.intent_floor),
    ensures
        producer_run(run),
        run.len() == 4,
        run[0] == log_moment(before),
        run[1] == (LogMoment { intent: after.tail_intent as int, ..run[0] }),
        run[2] == (LogMoment { buf: after.buf@, ..run[1] }),
        run[3] == log_moment(after),
{
    let start = log_moment(before);
    let declared = LogMoment { intent: after.tail_intent as int, ..start };
    let written = LogMoment { buf: after.buf@, ..declared };
    let committed = log_moment(after);
    let cap = before.cap();
    lemma_frame_fits(before.gate.tail as int, msg.len() as int, cap);
    lemma_records_fit(cap, msg.len() as int);
    crate::broadcast_bytes::lemma_frame_touches(before.buf@, before.gate.tail as int, msg);
    assert(after.frontier().tail == after.gate.tail);
    assert(after.frontier().intent == after.tail_intent);
    assert forall|o: int| 0 <= o < cap && #[trigger] after.buf@[o] != before.buf@[o] implies exists|
        m: int,
    |
        declared.tail <= m < declared.intent && #[trigger] (m % before.buf@.len() as int) == o by {
        let m = choose|m: int|
            before.gate.tail <= m < before.gate.tail + before.needed(msg.len() as int)
                && #[trigger] (m % before.buf@.len() as int) == o;
        assert(m % before.buf@.len() as int == o);
    }
    seq![start, declared, written, committed]
}

/// Two rings that no handle can tell apart.
pub open spec fn same_ring<P, C>(a: BytesRingBuffer<P, C>, b: BytesRingBuffer<P, C>) -> bool {
    &&& a.buf@ == b.buf@
    &&& a.gate@ == b.gate@
    &&& a.frontier() == b.frontier()
    &&& a.starving == b.starving
    &&& a.producer_wait == b.producer_wait
    &&& a.consumer_wait == b.consumer_wait
}

/// A claim is refused exactly where a push of that length is, and a claim that
/// is let go publishes nothing: but for the word that tells of a waiting
/// producer the ring is as it was, and the next push succeeds and takes the
/// same place.
pub proof fn a_claim_that_is_let_go_changes_nothing<P, C>(
    producer: BytesProducer,
    ring: BytesRingBuffer<P, C>,
    claimer: BytesProducer,
    after_claim: BytesRingBuffer<P, C>,
    len: usize,
    slot: Option<WriteSlot>,
    pusher: BytesProducer,
    after_push: BytesRingBuffer<P, C>,
    msg: Seq<u8>,
    r: bool,
    later: BytesProducer,
    after_both: BytesRingBuffer<P, C>,
    r_later: bool,
)
    requires
        producer.inv(&ring),
        msg.len() == len,
        try_claimed(producer, ring, claimer, after_claim, len, slot),
        try_pushed(producer, ring, pusher, after_push, msg, r),
        try_pushed(claimer, after_claim, later, after_both, msg, r_later),
    ensures
        slot is Some == r,
        r_later == r,
        after_claim.gate == ring.gate,
        after_claim.buf == ring.buf,
        after_claim.frontier() == ring.frontier(),
        claimer.core.next_seq == producer.core.next_seq,
        after_both.buf@ == after_push.buf@,
        after_both.gate@ == after_push.gate@,
        after_both.frontier() == after_push.frontier(),
{
}

/// Claiming a frame and committing a message of the claimed length leaves the
/// ring, and the producer, as pushing the message does: every anchor has one
/// more message pending.
pub proof fn claim_and_commit_is_push<P, C>(
    producer: BytesProducer,
    ring: BytesRingBuffer<P, C>,
    claimer: BytesProducer,
    after_claim: BytesRingBuffer<P, C>,
    slot: WriteSlot,
    committer: BytesProducer,
    after_commit: BytesRingBuffer<P, C>,
    pusher: BytesProducer,
    after_push: BytesRingBuffer<P, C>,
    msg: Seq<u8>,
    anchor: BytesAnchor,
)
    requires
        producer.inv(&ring),
        msg.len() <= max_len(ring.cap()),
        ring.has_room(msg.len() as int),
        claimed(producer, ring, claimer, after_claim, slot.len, slot),
        msg.len() == slot.len,
        committed(claimer, after_claim, committer, after_commit, msg),
        committer.inv(&after_commit),
        sent(producer, ring, pusher, after_push, msg),
    ensures
        sent(producer, ring, committer, after_commit, msg),
        same_ring(after_commit, after_push),
        anchor.inv(&ring) ==> anchor.inv(&after_commit) && anchor.pending(&after_commit)
            == anchor.pending(&ring).push(msg),
{
    a_frame_fits_under_a_free_run(ring.gate.tail as int, msg.len() as int, ring.cap());
    assert(producer.core.asked(
        &claimer.core,
        ring.gate@,
        ring.needed(msg.len() as int) as u64,
    ));
    if anchor.inv(&ring) {
        a_push_reaches_every_anchor(producer, anchor, ring, after_commit, msg);
    }
}

/// The longest message is an eighth of the ring, as far as a length field
/// counts. A message of that length, or a shorter one, is added at the end of
/// what an anchor has pending, byte for byte, and of what an observer has that
/// keeps up.
pub proof fn the_longest_message_comes_back<P, C, W>(
    producer: BytesProducer,
    ring: BytesRingBuffer<P, C>,
    after: BytesRingBuffer<P, C>,
    anchor: BytesAnchor,
    observer: BytesObserver<W>,
    msg: Seq<u8>,
)
    requires
        producer.inv(&ring),
        msg.len() <= max_len(ring.cap()),
        ring.has_room(msg.len() as int),
        ring.gate.tail + ring.cap() <= MAX_CURSOR,
        pushed(ring, after, msg, producer.intent_floor),
        after.inv(),
    ensures
        ring.cap() <= 0x1_0000_0000 ==> max_len(ring.cap()) == ring.cap() / 8,
        anchor.inv(&ring) ==> anchor.pending(&after) == anchor.pending(&ring).push(msg),
        observer.inv(&ring) && observer.reader.pos == ring.gate.tail ==> observer.in_window(&after)
            && observer.pending(&after) == seq![msg],
{
    if anchor.inv(&ring) {
        a_push_reaches_every_anchor(producer, anchor, ring, after, msg);
    }
    if observer.inv(&ring) && observer.reader.pos == ring.gate.tail {
        lemma_frame_fits(ring.gate.tail as int, msg.len() as int, ring.cap());
        an_observer_is_appended_to_or_overrun(producer, observer, ring, after, msg);
        lemma_no_messages(ring.buf@, ring.gate.tail as int);
        assert(observer.pending(&ring).push(msg) =~= seq![msg]);
    }
}

/// A skip counts the observer's lag and leaves none; it never moves the
/// observer back, and a second one skips nothing. What is committed next is all
/// that the observer has pending then, and what is reported as missed starts
/// with it.
pub proof fn a_skip_leaves_what_comes_later<P, C, W>(
    producer: BytesProducer,
    ring: BytesRingBuffer<P, C>,
    observer: BytesObserver<W>,
    skipper: BytesObserver<W>,
    skipped: u64,
    again: ByteReader,
    skipped_again: u64,
    pushed_to: BytesRingBuffer<P, C>,
    msg: Seq<u8>,
    later: BytesRingBuffer<P, C>,
    next: ByteReader,
    missed_bytes: u64,
)
    requires
        producer.inv(&ring),
        observer.inv(&ring),
        observer.reader.skips(ring.gate.tail, &skipper.reader, skipped),
        skipper.inv(&ring),
        skipper.reader.skips(ring.gate.tail, &again, skipped_again),
        msg.len() <= max_len(ring.cap()),
        ring.has_room(msg.len() as int),
        ring.gate.tail + ring.cap() <= MAX_CURSOR,
        pushed(ring, pushed_to, msg, producer.intent_floor),
        pushed_to.inv(),
    ensures
        skipped == ring.gate.tail - observer.reader.pos,
        skipper.reader.pos == ring.gate.tail,
        skipper.reader.pos >= observer.reader.pos,
        skipped_again == 0,
        again == skipper.reader,
        skipper.in_window(&pushed_to),
        skipper.pending(&pushed_to) == seq![msg],
        overrun(later, skipper.reader, next, missed_bytes) ==> next.pos == ring.gate.tail
            + missed_bytes,
{
    lemma_frame_fits(ring.gate.tail as int, msg.len() as int, ring.cap());
    an_observer_is_appended_to_or_overrun(producer, skipper, ring, pushed_to, msg);
    lemma_no_messages(ring.buf@, ring.gate.tail as int);
    assert(skipper.pending(&ring).push(msg) =~= seq![msg]);
}

/// A push of a message is refused exactly where some registered anchor leaves
/// less room than the frame of the message takes.
pub proof fn a_push_needs_room_and_nothing_else<P, C>(
    producer: BytesProducer,
    ring: BytesRingBuffer<P, C>,
    after: BytesProducer,
    ring_after: BytesRingBuffer<P, C>,
    msg: Seq<u8>,
    r: bool,
)
    requires
        producer.inv(&ring),
        msg.len() <= max_len(ring.cap()),
        try_pushed(producer, ring, after, ring_after, msg, r),
    ensures
        r <==> forall|k: int|
            0 <= k < ring.gate.registry@.len() && (#[trigger] ring.gate.registry@[k]).active
                && ring.gate.registry@[k].cursor != u64::MAX ==> ring.gate.tail
                - ring.gate.registry@[k].cursor + pad_for(
                ring.gate.tail as int,
                msg.len() as int,
                ring.cap(),
            ) + record(msg.len() as int) <= ring.cap(),
        r ==> ring_after.gate.tail == ring.gate.tail + pad_for(
            ring.gate.tail as int,
            msg.len() as int,
            ring.cap(),
        ) + record(msg.len() as int),
        !r ==> ring_after.gate == ring.gate && ring_after.buf == ring.buf,
{
    room_is_counted_from_the_slowest(ring.gate@, ring.needed(msg.len() as int), ring.cap());
}

/// The ring says that its producer waits, and for how much, while it does: a
/// push that is refused leaves the size of its frame there, and one that the
/// producer knows to have room leaves nothing.
pub proof fn a_waiting_producer_says_so<P, C>(
    producer: BytesProducer,
    ring: BytesRingBuffer<P, C>,
    after: BytesProducer,
    ring_after: BytesRingBuffer<P, C>,
    msg: Seq<u8>,
    r: bool,
)
    requires
        producer.inv(&ring),
        msg.len() <= max_len(ring.cap()),
        try_pushed(producer, ring, after, ring_after, msg, r),
    ensures
        ({
            let needed = pad_for(ring.gate.tail as int, msg.len() as int, ring.cap()) + record(
                msg.len() as int,
            );
            &&& !r ==> ring_after.starving == needed && after.raised_starving
            &&& producer.core.known_lag() + needed <= ring.cap() ==> r && ring_after.starving == 0
            &&& r && producer.core.known_lag() + needed > ring.cap() ==> ring_after.starving
                == ring.starving
        }),
{
    a_frame_fits_under_a_free_run(ring.gate.tail as int, msg.len() as int, ring.cap());
    if producer.core.known_lag() + ring.needed(msg.len() as int) <= ring.cap() {
        crate::gate::a_grant_leaves_room(
            producer.core,
            ring.gate@,
            ring.needed(msg.len() as int),
        );
    }
}

/// The producer is told of an anchor's progress in time, and not more often
/// than need be. Once nothing known is left to read, the slot says so; what it
/// does not say is less than an eighth of the ring and less than 4096 bytes; an
/// anchor that knows of everything and holds a waiting producer back answers it
/// at once; and a message taken from the middle of a batch is not told at once.
pub proof fn a_release_is_told_in_time<P, C>(
    anchor: BytesAnchor,
    ring: BytesRingBuffer<P, C>,
    after: BytesAnchor,
    ring_after: BytesRingBuffer<P, C>,
    amount: u64,
)
    requires
        anchor.inv(&ring),
        0 < amount <= anchor.core.write_cache - anchor.core.read_cursor,
        after.core == (GateConsumer {
            read_cursor: (anchor.core.read_cursor + amount) as u64,
            published: if anchor.core.publishes(
                amount,
                anchor.urgent(ring.starving),
                batch_of(ring.cap(), MAX_PUBLISH_BATCH_BYTES as int) as u64,
            ) {
                (anchor.core.read_cursor + amount) as u64
            } else {
                anchor.core.published
            },
            ..anchor.core
        }),
        moved(ring, ring_after, anchor, after),
    ensures
        ({
            let told = ring_after.gate.registry@[anchor.core.slot.at()].cursor;
            let before = ring.gate.registry@[anchor.core.slot.at()].cursor;
            let read = anchor.core.read_cursor + amount;
            let cap = ring.cap();
            &&& told <= read
            &&& read == anchor.core.write_cache ==> told == read
            &&& read - told < 4096
            &&& read - told == 0 || 8 * (read - told) < cap
            &&& ring.starving != 0 && anchor.core.write_cache == ring.gate.tail && ring.gate.tail
                + ring.starving - before > cap ==> told == read
            &&& ring.starving != 0 && anchor.core.write_cache - before + ring.starving >= cap
                ==> told == read
            &&& (ring.starving == 0 || anchor.core.write_cache - before + ring.starving < cap)
                && read < anchor.core.write_cache && read - before < 4096 && 8 * (read - before + 1)
                <= cap ==> told == before
        }),
{
    a_batch_is_an_eighth(ring.cap(), 4096);
}

/// A drained batch ends at the end, or behind the first frame with which it has
/// reached an eighth of the ring or 4096 bytes: it takes at least one frame where
/// there is one, and no frame once it has reached that much.
pub proof fn a_drained_batch_is_an_eighth(
    buf: Seq<u8>,
    start: int,
    end: int,
    batch: int,
    mid: int,
)
    requires
        byte_capacity(buf.len() as int),
        framed(buf, start, end),
        batch == batch_of(buf.len() as int, MAX_PUBLISH_BATCH_BYTES as int),
    ensures
        ({
            let to = drained_to(buf, start, end, start, batch);
            &&& start <= to <= end
            &&& framed(buf, start, to)
            &&& framed(buf, to, end)
            &&& start < end ==> start < to
            &&& to == end || to - start >= 4096 || 8 * (to - start + 1) > buf.len()
            &&& start <= mid < to && framed(buf, start, mid) && framed(buf, mid, to) ==> mid - start
                < 4096 && (mid == start || 8 * (mid - start) < buf.len())
        }),
{
    a_batch_is_an_eighth(buf.len() as int, 4096);
    lemma_drained_to(buf, start, end, start, batch, mid);
}

proof fn lemma_drained_to(buf: Seq<u8>, p: int, end: int, start: int, batch: int, mid: int)
    requires
        byte_capacity(buf.len() as int),
        framed(buf, p, end),
        start <= p,
        batch >= 1,
    ensures
        ({
            let to = drained_to(buf, p, end, start, batch);
            &&& p <= to <= end
            &&& framed(buf, p, to)
            &&& framed(buf, to, end)
            &&& to == end || to - start >= batch
            &&& p < end && p - start < batch ==> p < to
            &&& p <= mid < to && framed(buf, p, mid) ==> mid - start < batch
        }),
    decreases end - p,
{
    if p < end_of(buf, p) <= end && p - start < batch {
        lemma_drained_to(buf, end_of(buf, p), end, start, batch, mid);
    } else {
        assert(framed(buf, p, p));
    }
}

/// An observer that subscribes is handed nothing of what was committed before,
/// and everything from then on.
pub proof fn an_observer_starts_at_the_tail<P, C>(ring: BytesRingBuffer<P, C>, reader: ByteReader)
    requires
        ring.inv(),
        observing(&ring, reader),
    ensures
        reader.pos == ring.gate.tail,
        reader.tail_cache == ring.gate.tail,
        reader.mask + 1 == ring.cap(),
{
}

/// A new ring is empty and open, and its anchor is handed the first message
/// first.
pub proof fn a_new_ring_hands_out_the_first_push<P, C>(
    ring: BytesRingBuffer<P, C>,
    producer: BytesProducer,
    anchor: BytesAnchor,
    ring_after: BytesRingBuffer<P, C>,
    msg: Seq<u8>,
)
    requires
        fresh(ring, producer, anchor),
        msg.len() <= max_len(ring.cap()),
        pushed(ring, ring_after, msg, producer.intent_floor),
        ring_after.inv(),
    ensures
        !ring.gate.closed,
        ring.starving == 0,
        anchor.pending(&ring).len() == 0,
        anchor.core.read_cursor == ring.gate.tail,
        producer.core.next_seq == ring.gate.tail,
        ring.has_room(msg.len() as int),
        anchor.pending(&ring_after) == seq![msg],
{
    a_frame_fits_under_a_free_run(ring.gate.tail as int, msg.len() as int, ring.cap());
    crate::gate::a_grant_leaves_room(
        producer.core,
        ring.gate@,
        ring.needed(msg.len() as int),
    );
    a_push_reaches_every_anchor(producer, anchor, ring, ring_after, msg);
    assert(anchor.pending(&ring).push(msg) =~= seq![msg]);
}

/// An observer is told that it was overrun exactly where more than a ring of bytes
/// was declared past it, and is handed its next message where it was not; then it
/// goes on at the last record, and what it is told is what it skipped.
pub proof fn lagging_means_overrun<P, C>(
    ring: BytesRingBuffer<P, C>,
    before: ByteReader,
    after: ByteReader,
    msg: Seq<u8>,
    missed_bytes: u64,
)
    requires
        before.inv(ring.buf@, ring.frontier()),
    ensures
        seen(ring, before, after, msg) ==> ring.frontier().intent - before.pos <= ring.cap() && before.pos
            < ring.frontier().tail,
        overrun(ring, before, after, missed_bytes) ==> ring.frontier().intent - before.pos > ring.cap()
            && after.pos == ring.frontier().latest && after.pos - before.pos == missed_bytes,
{
    if overrun(ring, before, after, missed_bytes) {
        crate::bytelog::an_overrun_reader_recovers(ring.buf@, ring.frontier(), before);
    }
}

/// An anchor joins exactly while the producer is there. It is handed nothing of
/// what was published before, and counts as one more.
pub proof fn joining_needs_a_producer<P, C>(
    before: BytesRingBuffer<P, C>,
    after: BytesRingBuffer<P, C>,
    r: Result<BytesAnchor, SubscribeError>,
)
    requires
        before.inv(),
        subscribed(before, after, r),
    ensures
        r is Ok <==> !before.gate.closed,
        r matches Err(e) ==> e == SubscribeError::Closed && after == before,
        r matches Ok(joiner) ==> {
            &&& joiner.core.read_cursor == before.gate.tail
            &&& joiner.pending(&after).len() == 0
            &&& after.gate.tail == before.gate.tail
            &&& after.gate.registry@[joiner.core.slot.at()].active
            &&& after.gate.registry@[joiner.core.slot.at()].cursor == before.gate.tail
            &&& active_in(after.gate.registry@) == active_in(before.gate.registry@) + 1
        },
{
    if r is Ok {
        joining_and_leaving_are_counted(
            before.gate@,
            after.gate@,
            r->Ok_0.core.slot.at(),
            after.gate@,
            -1,
        );
    }
}

} // verus!
