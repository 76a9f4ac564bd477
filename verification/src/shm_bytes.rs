//! Byte messages in a region: the counters and frames of a byte ring with
//! observers, and the lossy ring over shared memory.

use crate::arith::{slot_index, MAX_CURSOR};
use crate::broadcast_bytes::{
    advanced, lemma_log_after_push, lemma_reader_after_push, BytesProducer, PopError,
};
use crate::bytelog::{
    accept_record, glance, in_window, locate_record, log_inv, ByteReader, Frontier, Glance, Glimpse,
};
use crate::create::lossy_region;
use crate::frames::{
    byte_capacity, end_of, frame, frame_ok, framed, header, lemma_aligned_offset, lemma_frame_fits,
    lemma_frame_grows, lemma_header_is_lane, lemma_offset, lemma_records_fit, lemma_start,
    lemma_wrap, len_at, max_len, message_at, pad_for, record_len, start_of, total_for, whole,
    with_frame, HEADER, PADDING,
};
use crate::region::{
    read_u64, store_u64, word, OFF_CLOSED, OFF_INTENT, OFF_LATEST, OFF_WRITE_CURSOR,
};
use crate::region_lanes::{buffer_fits, bytes_of, copy_out_lanes, load_lane, write_frame};
use crate::shm_gating::{floor_of, healed};
use vstd::prelude::*;

verus! {

/// The counters of a byte ring with observers.
pub open spec fn frontier_of(region: Seq<u64>) -> Frontier {
    Frontier {
        tail: word(region, OFF_WRITE_CURSOR as int),
        intent: word(region, OFF_INTENT as int),
        latest: word(region, OFF_LATEST as int),
    }
}

/// A byte ring with observers lies in a region: its buffer past the counters.
pub open spec fn bytes_fit(region: Seq<u64>, base: int, capacity: int) -> bool {
    base >= 64 && buffer_fits(region, base, capacity)
}

/// The counters are in order and the last record is readable.
pub open spec fn bytes_inv(region: Seq<u64>, base: int, capacity: int) -> bool {
    &&& bytes_fit(region, base, capacity)
    &&& log_inv(bytes_of(region, base, capacity), frontier_of(region))
}

/// Read the counters.
pub fn read_frontier(region: &[u64]) -> (r: Frontier)
    requires
        region@.len() >= 64,
    ensures
        r == frontier_of(region@),
{
    Frontier {
        tail: read_u64(region, OFF_WRITE_CURSOR),
        intent: read_u64(region, OFF_INTENT),
        latest: read_u64(region, OFF_LATEST),
    }
}

/// A store to a counter leaves the buffer alone.
pub proof fn lemma_counters_outside(before: Seq<u64>, after: Seq<u64>, base: int, capacity: int)
    requires
        bytes_fit(before, base, capacity),
        after.len() == before.len(),
        forall|i: int| 64 <= i < before.len() ==> #[trigger] after[i] == before[i],
    ensures
        bytes_of(after, base, capacity) == bytes_of(before, base, capacity),
{
    assert(bytes_of(after, base, capacity) =~= bytes_of(before, base, capacity));
}

/// What publishing a message does to a region: the frame is written, the three
/// counters move, and nothing else changes.
pub open spec fn message_published(
    before: Seq<u64>,
    after: Seq<u64>,
    base: int,
    capacity: int,
    floor: u64,
    msg: Seq<u8>,
) -> bool {
    let tail = word(before, OFF_WRITE_CURSOR as int);
    &&& bytes_of(after, base, capacity) == with_frame(
        bytes_of(before, base, capacity),
        tail as int,
        msg,
    )
    &&& frontier_of(after) == advanced(frontier_of(before), msg.len() as int, capacity, floor)
    &&& after.len() == before.len()
    &&& forall|i: int|
        0 <= i < before.len() && i != 16 && i != 32 && i != 48 && !(base <= i < base + capacity / 8)
            ==> #[trigger] after[i] == before[i]
}

/// Declare a frame, write it, and store where its record starts; the commit is
/// left to the caller.
pub(crate) fn write_declared(
    region: &mut [u64],
    base: usize,
    mask: u64,
    next: u64,
    floor: u64,
    pad: u64,
    total: u64,
    msg: &[u8],
)
    requires
        bytes_inv(old(region)@, base as int, mask + 1),
        next == word(old(region)@, OFF_WRITE_CURSOR as int),
        msg@.len() <= max_len(mask + 1),
        next + mask + 1 <= MAX_CURSOR,
        pad == pad_for(next as int, msg@.len() as int, mask + 1),
        total == total_for(next as int, msg@.len() as int, mask + 1),
        floor <= word(old(region)@, OFF_INTENT as int),
    ensures
        message_published(
            old(region)@,
            final(region)@.update(16, (next + total) as u64),
            base as int,
            mask + 1,
            floor,
            msg@,
        ),
        log_inv(
            bytes_of(final(region)@.update(16, (next + total) as u64), base as int, mask + 1),
            frontier_of(final(region)@.update(16, (next + total) as u64)),
        ),
        final(region)@.len() == old(region)@.len(),
        final(region)@[16] == old(region)@[16],
{
    proof {
        lemma_frame_fits(next as int, msg@.len() as int, mask + 1);
    }
    let new_tail: u64 = next + total;
    let declared: u64 = if new_tail > floor {
        new_tail
    } else {
        floor
    };
    store_u64(region, OFF_INTENT, declared);
    proof {
        lemma_counters_outside(old(region)@, region@, base as int, mask + 1);
    }
    let ghost opened = region@;
    write_frame(region, base, mask, next, pad, msg);
    let ghost written = region@;
    proof {
        assert(opened[16] == written[16]);
        assert(opened[32] == written[32]);
    }
    store_u64(region, OFF_LATEST, next + pad);
    proof {
        let after = region@.update(16, new_tail);
        lemma_counters_outside(written, after, base as int, mask + 1);
        lemma_log_after_push(
            bytes_of(old(region)@, base as int, mask + 1),
            frontier_of(old(region)@),
            msg@,
            frontier_of(after),
            floor,
        );
        assert(opened.len() == written.len());
        assert forall|i: int|
            0 <= i < after.len() && i != 16 && i != 32 && i != 48 && !(base <= i < base + (mask + 1)
                / 8) implies #[trigger] after[i] == old(region)@[i] by {
            assert(opened[i] == written[i]);
        }
    }
}

impl BytesProducer {
    /// The producer belongs to the region.
    pub open spec fn inv_shm(&self, region: Seq<u64>, base: int) -> bool {
        &&& bytes_inv(region, base, self.mask + 1)
        &&& self.next == word(region, OFF_WRITE_CURSOR as int)
        &&& word(region, OFF_INTENT as int) == (if self.next > self.intent_floor {
            self.next
        } else {
            self.intent_floor
        })
    }

    /// Publish `msg`. Never waits; the oldest bytes are overwritten.
    pub fn push_shm(&mut self, region: &mut [u64], base: usize, msg: &[u8])
        requires
            old(self).inv_shm(old(region)@, base as int),
            msg@.len() <= max_len(old(self).mask + 1),
            old(self).next + old(self).mask + 1 <= MAX_CURSOR,
        ensures
            message_published(
                old(region)@,
                final(region)@,
                base as int,
                old(self).mask + 1,
                old(self).intent_floor,
                msg@,
            ),
            *final(self) == (BytesProducer {
                next: word(final(region)@, OFF_WRITE_CURSOR as int),
                ..*old(self)
            }),
            final(self).inv_shm(final(region)@, base as int),
    {
        let (pad, total): (u64, u64) = frame(self.next, self.mask, msg.len());
        write_declared(
            region,
            base,
            self.mask,
            self.next,
            self.intent_floor,
            pad,
            total,
            msg,
        );
        self.next = self.next + total;
        store_u64(region, OFF_WRITE_CURSOR, self.next);
    }
}

/// The length field at `pos`.
fn header_at(region: &[u64], base: usize, mask: u64, pos: u64) -> (r: u32)
    requires
        bytes_fit(region@, base as int, mask + 1),
        pos % 8 == 0,
    ensures
        r == header(bytes_of(region@, base as int, mask + 1), pos as int),
{
    let ghost b = bytes_of(region@, base as int, mask + 1);
    proof {
        lemma_records_fit(b.len() as int, 0);
        lemma_aligned_offset(pos as int, b.len() as int);
        lemma_header_is_lane(b, pos as int);
    }
    load_lane(region, base, (mask + 1) as usize, slot_index(pos, mask))
}

/// The record of the frame at `pos`, which is one: where it starts, its offset,
/// and the length of its message.
pub fn decode_record_shm(region: &[u64], base: usize, mask: u64, pos: u64) -> (r: (
    u64,
    usize,
    usize,
))
    requires
        bytes_fit(region@, base as int, mask + 1),
        frame_ok(bytes_of(region@, base as int, mask + 1), pos as int),
        pos + 2 * (mask + 1) <= u64::MAX,
    ensures
        ({
            let b = bytes_of(region@, base as int, mask + 1);
            &&& r.0 == start_of(b, pos as int)
            &&& r.1 == r.0 as int % (mask + 1)
            &&& r.1 % 8 == 0
            &&& r.2 == len_at(b, pos as int)
        }),
{
    let ghost b = bytes_of(region@, base as int, mask + 1);
    let ghost p = pos as int;
    proof {
        lemma_records_fit(b.len() as int, len_at(b, p));
        lemma_start(b, p);
        lemma_wrap(p, b.len() as int);
        lemma_aligned_offset(start_of(b, p), b.len() as int);
    }
    let mut cursor: u64 = pos;
    let mut head: u32 = header_at(region, base, mask, pos);
    if head == PADDING {
        cursor = cursor + (mask + 1 - slot_index(cursor, mask) as u64);
        head = header_at(region, base, mask, cursor);
    }
    (cursor, slot_index(cursor, mask), head as usize)
}

/// Where the frame at `pos` ends, if it is one that a producer can have
/// written.
fn frame_end(region: &[u64], base: usize, mask: u64, pos: u64) -> (r: Option<u64>)
    requires
        bytes_fit(region@, base as int, mask + 1),
        pos % 8 == 0,
        pos + 2 * (mask + 1) <= u64::MAX,
    ensures
        ({
            let b = bytes_of(region@, base as int, mask + 1);
            r == (if frame_ok(b, pos as int) {
                Some(end_of(b, pos as int) as u64)
            } else {
                None
            })
        }),
{
    let capacity: u64 = mask + 1;
    let ghost b = bytes_of(region@, base as int, mask + 1);
    let ghost p = pos as int;
    proof {
        lemma_records_fit(b.len() as int, 0);
        lemma_start(b, p);
        lemma_aligned_offset(start_of(b, p), b.len() as int);
    }
    let first = Glimpse { before: pos, header: header_at(region, base, mask, pos), after: pos };
    let mut second = first;
    match glance(pos, pos, capacity, first) {
        Glance::Skip { cursor } => {
            second = Glimpse {
                before: pos,
                header: header_at(region, base, mask, cursor),
                after: pos,
            };
        },
        _ => {},
    }
    match locate_record(pos, capacity, first, second) {
        None => None,
        Some((start, len)) => {
            proof {
                lemma_records_fit(b.len() as int, len as int);
            }
            let end: u64 = start + record_len(len) as u64;
            if end - pos <= capacity {
                Some(end)
            } else {
                None
            }
        },
    }
}

/// Whether the bytes of a region between two positions are a run of frames.
pub fn is_framed(region: &[u64], base: usize, mask: u64, from: u64, to: u64) -> (r: bool)
    requires
        bytes_fit(region@, base as int, mask + 1),
        to + 2 * (mask + 1) <= u64::MAX,
    ensures
        r == framed(bytes_of(region@, base as int, mask + 1), from as int, to as int),
{
    let ghost b = bytes_of(region@, base as int, mask + 1);
    let mut p: u64 = from;
    while p != to
        invariant
            bytes_fit(region@, base as int, mask + 1),
            to + 2 * (mask + 1) <= u64::MAX,
            b == bytes_of(region@, base as int, mask + 1),
            byte_capacity(b.len() as int),
            framed(b, p as int, to as int) == framed(b, from as int, to as int),
        decreases to - p,
    {
        if p > to || p % 8 != 0 {
            return false;
        }
        match frame_end(region, base, mask, p) {
            None => return false,
            Some(end) => {
                proof {
                    lemma_frame_grows(b, p as int);
                }
                if end > to {
                    return false;
                }
                p = end;
            },
        }
    }
    true
}

/// Copy the message of the frame at `pos`, whose record is at offset `off`.
pub(crate) fn copy_message(
    region: &[u64],
    base: usize,
    mask: u64,
    pos: u64,
    off: usize,
    len: usize,
) -> (r: Vec<u8>)
    requires
        bytes_fit(region@, base as int, mask + 1),
        pos % 8 == 0,
        whole(bytes_of(region@, base as int, mask + 1), pos as int),
        off == start_of(bytes_of(region@, base as int, mask + 1), pos as int) % (mask + 1),
        off % 8 == 0,
        len == len_at(bytes_of(region@, base as int, mask + 1), pos as int),
    ensures
        r@ == message_at(bytes_of(region@, base as int, mask + 1), pos as int),
{
    let cap: usize = (mask + 1) as usize;
    let ghost b = bytes_of(region@, base as int, mask + 1);
    let ghost p = pos as int;
    proof {
        lemma_start(b, p);
        lemma_records_fit(b.len() as int, len as int);
    }
    let mut copy: Vec<u8> = Vec::new();
    copy_out_lanes(region, base, cap, off + HEADER, &mut copy, len);
    proof {
        assert forall|k: int| 0 <= k < len implies #[trigger] copy@[k] == message_at(b, p)[k] by {
            lemma_offset(start_of(b, p), HEADER + k, b.len() as int);
        }
        assert(copy@ =~= message_at(b, p));
    }
    copy
}

impl ByteReader {
    /// The reader belongs to the region.
    pub open spec fn inv_shm(&self, region: Seq<u64>, base: int) -> bool {
        &&& bytes_fit(region, base, self.cap())
        &&& self.inv(bytes_of(region, base, self.cap()), frontier_of(region))
    }

    /// Copy the message at the reader's position out of a region, or skip to
    /// the last record where the position was overrun, or where the length
    /// field there is none that a record can have. The error is the number of
    /// bytes skipped.
    pub fn read_record_shm(&mut self, region: &[u64], base: usize, out: &mut Vec<u8>) -> (r: Result<
        (),
        u64,
    >)
        requires
            bytes_fit(region@, base as int, old(self).cap()),
            old(self).placed(
                bytes_of(region@, base as int, old(self).cap()),
                frontier_of(region@),
            ),
            old(self).pos < word(region@, OFF_WRITE_CURSOR as int),
        ensures
            ({
                let buf = bytes_of(region@, base as int, old(self).cap());
                let f = frontier_of(region@);
                let p = old(self).pos as int;
                match r {
                    Ok(()) => {
                        &&& in_window(f, p, old(self).cap())
                        &&& whole(buf, p)
                        &&& final(out)@ == message_at(buf, p)
                        &&& *final(self) == (ByteReader { pos: end_of(buf, p) as u64, ..*old(self) })
                        &&& final(self).pos == end_of(buf, p)
                    },
                    Err(missed) => {
                        &&& !(in_window(f, p, old(self).cap()) && whole(buf, p))
                        &&& final(out)@ == old(out)@
                        &&& *final(self) == (ByteReader {
                            pos: old(self).resumed(f),
                            tail_cache: f.tail,
                            ..*old(self)
                        })
                        &&& old(self).pos + missed == final(self).pos
                    },
                }
            }),
            old(self).inv_shm(region@, base as int) ==> {
                let buf = bytes_of(region@, base as int, old(self).cap());
                let f = frontier_of(region@);
                &&& r is Ok == in_window(f, old(self).pos as int, old(self).cap())
                &&& final(self).inv_shm(region@, base as int)
                &&& r is Ok ==> old(self).pending(buf, f).len() > 0 && final(out)@ == old(
                    self,
                ).pending(buf, f)[0] && final(self).pending(buf, f) == old(self).pending(
                    buf,
                    f,
                ).drop_first()
            },
    {
        let f = read_frontier(region);
        let capacity: u64 = self.mask + 1;
        let pos: u64 = self.pos;
        let ghost b = bytes_of(region@, base as int, self.cap());
        let ghost p = pos as int;
        proof {
            lemma_records_fit(b.len() as int, 0);
            lemma_start(b, p);
            lemma_aligned_offset(start_of(b, p), b.len() as int);
        }
        let first = Glimpse {
            before: f.intent,
            header: header_at(region, base, self.mask, pos),
            after: read_u64(region, OFF_INTENT),
        };
        let mut second = first;
        match glance(pos, pos, capacity, first) {
            Glance::Skip { cursor } => {
                second = Glimpse {
                    before: read_u64(region, OFF_INTENT),
                    header: header_at(region, base, self.mask, cursor),
                    after: read_u64(region, OFF_INTENT),
                };
            },
            _ => {},
        }
        match locate_record(pos, capacity, first, second) {
            None => Err(self.reposition(f)),
            Some((start, len)) => {
                let at: usize = slot_index(start, self.mask);
                proof {
                    lemma_records_fit(b.len() as int, len as int);
                    self.lemma_taken(b, f);
                }
                let copy = copy_message(region, base, self.mask, pos, at, len);
                match accept_record(pos, capacity, first, second, read_u64(region, OFF_INTENT)) {
                    None => Err(self.reposition(f)),
                    Some((start, len)) => {
                        *out = copy;
                        self.pos = start + record_len(len) as u64;
                        Ok(())
                    },
                }
            },
        }
    }

    /// Skip everything committed so far in a region; the number of bytes
    /// skipped.
    pub fn skip_to_latest_shm(&mut self, region: &[u64], base: usize) -> (skipped: u64)
        requires
            old(self).inv_shm(region@, base as int),
        ensures
            old(self).skips(word(region@, OFF_WRITE_CURSOR as int), final(self), skipped),
            skipped == word(region@, OFF_WRITE_CURSOR as int) - old(self).pos,
            final(self).pending(
                bytes_of(region@, base as int, old(self).cap()),
                frontier_of(region@),
            ).len() == 0,
            final(self).inv_shm(region@, base as int),
    {
        self.skip_to_latest(read_u64(region, OFF_WRITE_CURSOR))
    }

    /// Another reader of a region, which sees what is committed from now on.
    pub fn subscribe_shm(&self, region: &[u64], base: usize) -> (r: ByteReader)
        requires
            self.inv_shm(region@, base as int),
        ensures
            r == (ByteReader {
                pos: word(region@, OFF_WRITE_CURSOR as int),
                tail_cache: word(region@, OFF_WRITE_CURSOR as int),
                ..*self
            }),
            r.inv_shm(region@, base as int),
    {
        ByteReader::join(self.mask, read_u64(region, OFF_WRITE_CURSOR))
    }

    /// How many bytes committed in a region the reader has not seen.
    pub fn lag_shm(&self, region: &[u64]) -> (r: u64)
        requires
            region@.len() > OFF_WRITE_CURSOR / 8,
        ensures
            r == (if word(region@, OFF_WRITE_CURSOR as int) > self.pos {
                word(region@, OFF_WRITE_CURSOR as int) - self.pos
            } else {
                0
            }),
    {
        self.lag(read_u64(region, OFF_WRITE_CURSOR))
    }

    /// The next message of a region if there is one, in `out`.
    pub fn try_pop_shm(&mut self, region: &[u64], base: usize, out: &mut Vec<u8>) -> (r: Result<
        bool,
        PopError,
    >)
        requires
            old(self).inv_shm(region@, base as int),
        ensures
            ({
                let buf = bytes_of(region@, base as int, old(self).cap());
                let f = frontier_of(region@);
                let closed = word(region@, OFF_CLOSED as int) != 0;
                match r {
                    Ok(true) => {
                        &&& old(self).pos < f.tail
                        &&& in_window(f, old(self).pos as int, old(self).cap())
                        &&& final(out)@ == old(self).pending(buf, f)[0]
                        &&& final(self).pending(buf, f) == old(self).pending(buf, f).drop_first()
                        &&& *final(self) == (ByteReader {
                            pos: end_of(buf, old(self).pos as int) as u64,
                            tail_cache: old(self).looked_up(f.tail),
                            ..*old(self)
                        })
                    },
                    Ok(false) => {
                        &&& !closed
                        &&& old(self).pos == f.tail
                        &&& final(out)@ == old(out)@
                        &&& *final(self) == (ByteReader { tail_cache: f.tail, ..*old(self) })
                    },
                    Err(PopError::Lagged { missed_bytes }) => {
                        &&& old(self).pos < f.tail
                        &&& !in_window(f, old(self).pos as int, old(self).cap())
                        &&& final(out)@ == old(out)@
                        &&& *final(self) == (ByteReader {
                            pos: old(self).resumed(f),
                            tail_cache: f.tail,
                            ..*old(self)
                        })
                        &&& old(self).pos + missed_bytes == final(self).pos
                    },
                    Err(PopError::Closed) => {
                        &&& closed
                        &&& old(self).pos == f.tail
                        &&& final(out)@ == old(out)@
                        &&& *final(self) == (ByteReader { tail_cache: f.tail, ..*old(self) })
                    },
                }
            }),
            final(self).inv_shm(region@, base as int),
    {
        let tail: u64 = read_u64(region, OFF_WRITE_CURSOR);
        if !self.has_item(tail) {
            let closed: bool = read_u64(region, OFF_CLOSED) != 0;
            if self.drained(tail, closed) {
                return Err(PopError::Closed);
            }
            return Ok(false);
        }
        match self.read_record_shm(region, base, out) {
            Ok(()) => Ok(true),
            Err(missed_bytes) => Err(PopError::Lagged { missed_bytes }),
        }
    }
}

/// A push into a region appends its message to what every reader has pending,
/// except for those that it overruns.
pub proof fn a_push_appends_or_overruns(
    before: Seq<u64>,
    after: Seq<u64>,
    base: int,
    producer: BytesProducer,
    msg: Seq<u8>,
    reader: ByteReader,
)
    requires
        producer.inv_shm(before, base),
        reader.inv_shm(before, base),
        reader.mask == producer.mask,
        msg.len() <= max_len(producer.mask + 1),
        producer.next + producer.mask + 1 <= MAX_CURSOR,
        message_published(before, after, base, producer.mask + 1, producer.intent_floor, msg),
        bytes_inv(after, base, producer.mask + 1),
    ensures
        reader.inv_shm(after, base),
        ({
            let cap = reader.cap();
            in_window(frontier_of(after), reader.pos as int, cap) ==> in_window(
                frontier_of(before),
                reader.pos as int,
                cap,
            ) && reader.pending(bytes_of(after, base, cap), frontier_of(after)) == reader.pending(
                bytes_of(before, base, cap),
                frontier_of(before),
            ).push(msg)
        }),
{
    lemma_frame_fits(producer.next as int, msg.len() as int, producer.mask + 1);
    lemma_reader_after_push(
        bytes_of(before, base, reader.cap()),
        frontier_of(before),
        msg,
        frontier_of(after),
        reader,
    );
}

/// A producer that takes a ring over after its predecessor died in the middle
/// of a push finds the ring in order once it has been healed: what was
/// committed is readable, and nothing that was half written ever is.
pub proof fn healing_restores_the_ring(region: Seq<u64>, base: int, capacity: usize)
    requires
        bytes_fit(region, base, capacity as int),
        word(region, OFF_WRITE_CURSOR as int) % 8 == 0,
        word(region, OFF_WRITE_CURSOR as int) <= MAX_CURSOR,
        word(region, OFF_WRITE_CURSOR as int) < word(region, OFF_INTENT as int),
        word(region, OFF_INTENT as int) <= word(region, OFF_WRITE_CURSOR as int) + capacity,
    ensures
        bytes_inv(healed(region), base, capacity as int),
        crate::shm_lossy::resuming_bytes(region, capacity, floor_of(region)).inv_shm(
            healed(region),
            base,
        ),
{
    lemma_counters_outside(region, healed(region), base, capacity as int);
}

/// A fresh byte ring in a region is a ring, and its producer belongs to it.
pub proof fn a_fresh_region_is_a_ring(before: Seq<u64>, capacity: usize, token: u64)
    requires
        byte_capacity(capacity as int),
        before.len() == 64 + capacity / 8,
    ensures
        ({
            let region = lossy_region(
                before,
                crate::region::KIND_BCAST_BYTES,
                capacity,
                1,
                1,
                0,
                token,
            );
            BytesProducer { mask: (capacity - 1) as u64, next: 0, intent_floor: 0 }.inv_shm(
                region,
                64,
            )
        }),
{
    lemma_records_fit(capacity as int, 0);
}

} // verus!
