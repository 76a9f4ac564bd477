//! The lossy read path of the byte rings.
//!
//! The producer keeps three counters. Before it touches a byte it declares how
//! far it will write (`intent`); after it has written a frame it stores where
//! the record starts (`latest`) and then commits the frame (`tail`). A reader
//! at `pos` copies what it finds there and keeps the copy only if the declared
//! frontier is at most one lap past `pos` afterwards: until then no byte at or
//! after `pos` has been overwritten.

use crate::arith::{slot_index, MAX_CURSOR};
use crate::atomic_copy::{copy_out_lanes, load_lane};
use crate::frames::{
    byte, byte_capacity, end_of, frame_ok, framed, header, lemma_aligned_offset,
    lemma_distinct_positions, lemma_frame_grows, lemma_header_is_lane, lemma_offset,
    lemma_records_fit, lemma_run_ends, lemma_start, lemma_wrap, len_at, max_len, max_message_len,
    message_at, messages, record, record_len, start_of, whole, HEADER, PADDING,
};
use vstd::arithmetic::div_mod::lemma_mod_bound;
use vstd::prelude::*;

verus! {

/// The producer's counters.
#[derive(Clone, Copy)]
pub struct Frontier {
    /// Bytes committed.
    pub tail: u64,
    /// The declared end of what the producer writes.
    pub intent: u64,
    /// Where the last record starts.
    pub latest: u64,
}

/// The counters are in order, the last record is readable, and the committed
/// bytes from there on are frames.
pub open spec fn log_inv(buf: Seq<u8>, f: Frontier) -> bool {
    &&& byte_capacity(buf.len() as int)
    &&& f.latest % 8 == 0
    &&& f.tail % 8 == 0
    &&& f.latest <= f.tail <= f.intent
    &&& f.intent <= f.latest + buf.len()
    &&& f.tail <= MAX_CURSOR
    &&& framed(buf, f.latest as int, f.tail as int)
}

/// No byte at or after `pos` has been overwritten.
pub open spec fn in_window(f: Frontier, pos: int, capacity: int) -> bool {
    f.intent - pos <= capacity
}

/// Whether the declared frontier has reached the bytes at `pos`.
pub fn overrun(intent: u64, pos: u64, capacity: u64) -> (r: bool)
    ensures
        r == (crate::arith::lag(intent, pos) > capacity),
{
    intent.wrapping_sub(pos) > capacity
}

/// What a length field at an offset says.
pub enum FrameHead {
    /// The rest of the lap is padding.
    Padding,
    /// A record with a message of `len` bytes.
    Record { len: usize },
    /// Not the head of a frame: the bytes were overwritten.
    Torn,
}

/// What a length field at an offset says.
pub open spec fn head_of(header: int, off: int, capacity: int) -> FrameHead {
    if header == PADDING {
        FrameHead::Padding
    } else if header > max_len(capacity) || record(header) > capacity - off {
        FrameHead::Torn
    } else {
        FrameHead::Record { len: header as usize }
    }
}

/// Judge a length field before anything is done with it: a length that no
/// record can have proves that the bytes were overwritten.
pub fn judge_head(header: u32, off: usize, capacity: usize) -> (r: FrameHead)
    requires
        byte_capacity(capacity as int),
        off < capacity,
    ensures
        r == head_of(header as int, off as int, capacity as int),
{
    if header == PADDING {
        return FrameHead::Padding;
    }
    let max: usize = max_message_len(capacity);
    if header as u64 > max as u64 {
        return FrameHead::Torn;
    }
    let len: usize = header as usize;
    proof {
        lemma_records_fit(capacity as int, len as int);
    }
    if record_len(len) > capacity - off {
        return FrameHead::Torn;
    }
    FrameHead::Record { len }
}

/// One look at a frame: the declared frontier, the length field, and the
/// frontier again.
#[derive(Clone, Copy)]
pub struct Glimpse {
    pub before: u64,
    pub header: u32,
    pub after: u64,
}

/// What a look at a frame comes to.
pub enum Glance {
    /// The position was overrun.
    Overrun,
    /// Padding: the record starts at `cursor`.
    Skip { cursor: u64 },
    /// A record with a message of `len` bytes.
    Take { len: usize },
}

/// The declared frontier is more than a lap past `pos`.
pub open spec fn past(intent: u64, pos: u64, capacity: int) -> bool {
    crate::arith::lag(intent, pos) > capacity
}

/// What a look at `cursor` comes to, for a frame at `pos`: nothing is believed
/// of a length field before the frontier has been looked at, and padding is
/// skipped only where the frontier has not moved past the frame since.
pub open spec fn glance_of(pos: u64, cursor: u64, capacity: int, g: Glimpse) -> Glance {
    if past(g.before, pos, capacity) {
        Glance::Overrun
    } else {
        match head_of(g.header as int, cursor as int % capacity, capacity) {
            FrameHead::Padding => if past(g.after, pos, capacity) {
                Glance::Overrun
            } else {
                Glance::Skip { cursor: (cursor + (capacity - cursor as int % capacity)) as u64 }
            },
            FrameHead::Record { len } => Glance::Take { len },
            FrameHead::Torn => Glance::Overrun,
        }
    }
}

/// What a look at `cursor` comes to, for a frame at `pos`.
pub fn glance(pos: u64, cursor: u64, capacity: u64, g: Glimpse) -> (r: Glance)
    requires
        byte_capacity(capacity as int),
        cursor + capacity <= u64::MAX,
    ensures
        r == glance_of(pos, cursor, capacity as int, g),
{
    if overrun(g.before, pos, capacity) {
        return Glance::Overrun;
    }
    let off: usize = slot_index(cursor, capacity - 1);
    match judge_head(g.header, off, capacity as usize) {
        FrameHead::Padding => {
            if overrun(g.after, pos, capacity) {
                return Glance::Overrun;
            }
            Glance::Skip { cursor: cursor + (capacity - off as u64) }
        },
        FrameHead::Record { len } => Glance::Take { len },
        FrameHead::Torn => Glance::Overrun,
    }
}

/// Where the looks place the record of the frame at `pos`, and the length of
/// its message; `None` where they show that the position was overrun. Padding
/// is never followed by padding.
pub open spec fn located(pos: u64, capacity: int, first: Glimpse, second: Glimpse) -> Option<
    (u64, usize),
> {
    match glance_of(pos, pos, capacity, first) {
        Glance::Overrun => None,
        Glance::Take { len } => Some((pos, len)),
        Glance::Skip { cursor } => match glance_of(pos, cursor, capacity, second) {
            Glance::Take { len } => Some((cursor, len)),
            _ => None,
        },
    }
}

/// Where the looks place the record of the frame at `pos`. The second look is
/// the one past the padding, and counts only where there is padding.
pub fn locate_record(pos: u64, capacity: u64, first: Glimpse, second: Glimpse) -> (r: Option<
    (u64, usize),
>)
    requires
        byte_capacity(capacity as int),
        pos + 2 * capacity <= u64::MAX,
    ensures
        r == located(pos, capacity as int, first, second),
{
    proof {
        lemma_wrap(pos as int, capacity as int);
    }
    match glance(pos, pos, capacity, first) {
        Glance::Overrun => None,
        Glance::Take { len } => Some((pos, len)),
        Glance::Skip { cursor } => match glance(pos, cursor, capacity, second) {
            Glance::Take { len } => Some((cursor, len)),
            _ => None,
        },
    }
}

/// The record that a copy is kept of: where the looks place it, if the
/// frontier, looked at once more after the copy, is still in reach of the
/// position.
pub open spec fn accepted_record(
    pos: u64,
    capacity: int,
    first: Glimpse,
    second: Glimpse,
    last: u64,
) -> Option<(u64, usize)> {
    if past(last, pos, capacity) {
        None
    } else {
        located(pos, capacity, first, second)
    }
}

/// Accept a copy only where every look at the frontier, the last one after the
/// copy, finds it at most a lap past the position, and the length fields are
/// those of a record.
pub fn accept_record(
    pos: u64,
    capacity: u64,
    first: Glimpse,
    second: Glimpse,
    last: u64,
) -> (r: Option<(u64, usize)>)
    requires
        byte_capacity(capacity as int),
        pos + 2 * capacity <= u64::MAX,
    ensures
        r == accepted_record(pos, capacity as int, first, second, last),
{
    if overrun(last, pos, capacity) {
        return None;
    }
    locate_record(pos, capacity, first, second)
}

/// The private side of a lossy reader of a byte ring.
#[derive(Clone, Copy)]
pub struct ByteReader {
    pub mask: u64,
    pub pos: u64,
    pub tail_cache: u64,
}

impl ByteReader {
    /// Bytes in the ring.
    pub open spec fn cap(&self) -> int {
        self.mask + 1
    }

    /// The reader stands at the start of a frame, unless it was overrun.
    pub open spec fn inv(&self, buf: Seq<u8>, f: Frontier) -> bool {
        &&& log_inv(buf, f)
        &&& self.cap() == buf.len()
        &&& self.pos % 8 == 0
        &&& self.pos <= f.tail
        &&& self.tail_cache <= f.tail
        &&& in_window(f, self.pos as int, self.cap()) ==> framed(
            buf,
            self.pos as int,
            f.tail as int,
        )
    }

    /// The messages between the reader and the committed end, while it has
    /// not been overrun.
    pub open spec fn pending(&self, buf: Seq<u8>, f: Frontier) -> Seq<Seq<u8>> {
        messages(buf, self.pos as int, f.tail as int)
    }

    /// The copy of the tail after a look for a message.
    pub open spec fn looked_up(&self, tail: u64) -> u64 {
        if self.tail_cache > self.pos {
            self.tail_cache
        } else {
            tail
        }
    }

    /// Where the reader continues after it was overrun.
    pub open spec fn resumed(&self, f: Frontier) -> u64 {
        if f.latest > self.pos {
            f.latest
        } else {
            self.pos
        }
    }

    /// A reader that sees what is committed after `tail`.
    pub fn join(mask: u64, tail: u64) -> (r: Self)
        ensures
            r == (ByteReader { mask, pos: tail, tail_cache: tail }),
    {
        ByteReader { mask, pos: tail, tail_cache: tail }
    }

    /// Whether the copy of the tail says that a frame is there.
    pub fn available(&self) -> (r: bool)
        ensures
            r == (self.tail_cache > self.pos),
    {
        self.tail_cache > self.pos
    }

    /// Re-read the tail.
    pub fn refresh(&mut self, tail: u64) -> (r: u64)
        ensures
            r == tail,
            *final(self) == (ByteReader { tail_cache: tail, ..*old(self) }),
    {
        self.tail_cache = tail;
        self.tail_cache
    }

    /// Whether a frame was committed past the reader. Re-reads the tail only
    /// where the copy says no.
    pub fn has_item(&mut self, tail: u64) -> (r: bool)
        ensures
            r == (old(self).tail_cache > old(self).pos || tail > old(self).pos),
            *final(self) == (ByteReader { tail_cache: old(self).looked_up(tail), ..*old(self) }),
    {
        if !self.available() {
            self.refresh(tail);
            return self.available();
        }
        true
    }

    /// Whether the ring is closed and a fresh look finds nothing.
    pub fn drained(&mut self, tail: u64, closed: bool) -> (r: bool)
        ensures
            r == (closed && tail <= old(self).pos),
            *final(self) == (ByteReader {
                tail_cache: if closed {
                    tail
                } else {
                    old(self).tail_cache
                },
                ..*old(self)
            }),
    {
        if closed {
            self.refresh(tail);
            if self.tail_cache <= self.pos {
                return true;
            }
        }
        false
    }

    /// The reader and the counters are in order. Nothing is said of the bytes.
    pub open spec fn placed(&self, buf: Seq<u8>, f: Frontier) -> bool {
        &&& byte_capacity(buf.len() as int)
        &&& self.cap() == buf.len()
        &&& self.pos % 8 == 0
        &&& self.pos <= f.tail
        &&& f.latest <= f.tail <= f.intent
        &&& f.tail <= MAX_CURSOR
    }

    /// Copy the message at the reader's position, or skip to the last record
    /// where the position was overrun, or where the length field there is none
    /// that a record can have. The error is the number of bytes skipped.
    pub fn read_record(&mut self, buf: &Vec<u8>, f: Frontier, out: &mut Vec<u8>) -> (r: Result<
        (),
        u64,
    >)
        requires
            old(self).placed(buf@, f),
            old(self).pos < f.tail,
        ensures
            match r {
                Ok(()) => {
                    &&& in_window(f, old(self).pos as int, old(self).cap())
                    &&& whole(buf@, old(self).pos as int)
                    &&& final(out)@ == message_at(buf@, old(self).pos as int)
                    &&& *final(self) == (ByteReader {
                        pos: end_of(buf@, old(self).pos as int) as u64,
                        ..*old(self)
                    })
                    &&& final(self).pos == end_of(buf@, old(self).pos as int)
                },
                Err(missed) => {
                    &&& !(in_window(f, old(self).pos as int, old(self).cap()) && whole(
                        buf@,
                        old(self).pos as int,
                    ))
                    &&& final(out)@ == old(out)@
                    &&& *final(self) == (ByteReader {
                        pos: old(self).resumed(f),
                        tail_cache: f.tail,
                        ..*old(self)
                    })
                    &&& old(self).pos + missed == final(self).pos
                },
            },
            old(self).inv(buf@, f) ==> {
                &&& r is Ok == in_window(f, old(self).pos as int, old(self).cap())
                &&& final(self).inv(buf@, f)
                &&& r is Ok ==> old(self).pending(buf@, f).len() > 0 && final(out)@ == old(
                    self,
                ).pending(buf@, f)[0] && final(self).pending(buf@, f) == old(self).pending(
                    buf@,
                    f,
                ).drop_first()
            },
    {
        let capacity: u64 = self.mask + 1;
        let pos: u64 = self.pos;
        let ghost p = pos as int;
        let ghost b = buf@;
        proof {
            lemma_records_fit(b.len() as int, 0);
            lemma_start(b, p);
            lemma_aligned_offset(p, b.len() as int);
            lemma_header_is_lane(b, p);
            lemma_aligned_offset(start_of(b, p), b.len() as int);
            lemma_header_is_lane(b, start_of(b, p));
        }
        let off: usize = slot_index(pos, self.mask);
        let first = Glimpse { before: f.intent, header: load_lane(buf, off), after: f.intent };
        let mut second = first;
        match glance(pos, pos, capacity, first) {
            Glance::Skip { cursor } => {
                let next: usize = slot_index(cursor, self.mask);
                second = Glimpse {
                    before: f.intent,
                    header: load_lane(buf, next),
                    after: f.intent,
                };
            },
            _ => {},
        }
        match locate_record(pos, capacity, first, second) {
            None => Err(self.reposition(f)),
            Some((start, len)) => {
                let at: usize = slot_index(start, self.mask);
                proof {
                    lemma_records_fit(b.len() as int, len as int);
                    self.lemma_taken(b, f);
                }
                out.clear();
                copy_out_lanes(buf, at + HEADER, out, len);
                proof {
                    assert forall|k: int| 0 <= k < len implies #[trigger] out@[k] == message_at(
                        b,
                        p,
                    )[k] by {
                        lemma_offset(start as int, HEADER + k, b.len() as int);
                    }
                    assert(out@ =~= message_at(b, p));
                }
                match accept_record(pos, capacity, first, second, f.intent) {
                    None => Err(self.reposition(f)),
                    Some((start, len)) => {
                        self.pos = start + record_len(len) as u64;
                        Ok(())
                    },
                }
            },
        }
    }

    /// What a reader that is in order finds behind a frame.
    pub proof fn lemma_taken(&self, buf: Seq<u8>, f: Frontier)
        requires
            self.pos < f.tail,
        ensures
            self.inv(buf, f) && in_window(f, self.pos as int, self.cap()) ==> {
                let e = end_of(buf, self.pos as int);
                &&& self.pending(buf, f).len() > 0
                &&& self.pending(buf, f)[0] == message_at(buf, self.pos as int)
                &&& self.pending(buf, f).drop_first() == messages(buf, e, f.tail as int)
                &&& frame_ok(buf, self.pos as int)
                &&& framed(buf, e, f.tail as int)
                &&& e <= f.tail
                &&& e % 8 == 0
                &&& self.pos < e
            },
    {
        if self.inv(buf, f) && in_window(f, self.pos as int, self.cap()) {
            let p = self.pos as int;
            lemma_frame_grows(buf, p);
            assert(self.pending(buf, f).drop_first() =~= messages(
                buf,
                end_of(buf, p),
                f.tail as int,
            ));
            lemma_run_ends(buf, end_of(buf, p), f.tail as int);
        }
    }

    /// Skip to the last record. The number of bytes skipped.
    pub fn reposition(&mut self, f: Frontier) -> (missed: u64)
        requires
            old(self).pos <= f.tail,
        ensures
            *final(self) == (ByteReader {
                pos: old(self).resumed(f),
                tail_cache: f.tail,
                ..*old(self)
            }),
            old(self).pos + missed == final(self).pos,
    {
        self.refresh(f.tail);
        let new_pos: u64 = if f.latest > self.pos {
            f.latest
        } else {
            self.pos
        };
        let missed: u64 = new_pos - self.pos;
        self.pos = new_pos;
        missed
    }

    /// What skipping everything up to `tail` comes to.
    pub open spec fn skips(&self, tail: u64, after: &Self, skipped: u64) -> bool {
        &&& skipped == (if tail > self.pos {
            tail - self.pos
        } else {
            0
        })
        &&& *after == (ByteReader {
            pos: if tail > self.pos {
                tail
            } else {
                self.pos
            },
            tail_cache: tail,
            ..*self
        })
    }

    /// Skip everything committed so far; the number of bytes skipped.
    pub fn skip_to_latest(&mut self, tail: u64) -> (skipped: u64)
        ensures
            old(self).skips(tail, final(self), skipped),
    {
        self.refresh(tail);
        let skipped: u64 = tail.saturating_sub(self.pos);
        self.pos = if tail > self.pos {
            tail
        } else {
            self.pos
        };
        skipped
    }

    /// How many committed bytes the reader has not seen.
    pub fn lag(&self, tail: u64) -> (r: u64)
        ensures
            r == (if tail > self.pos {
                tail - self.pos
            } else {
                0
            }),
    {
        tail.saturating_sub(self.pos)
    }
}

/// A reader that was overrun lands on the last record, which it can read, and
/// it has moved.
pub proof fn an_overrun_reader_recovers(buf: Seq<u8>, f: Frontier, reader: ByteReader)
    requires
        reader.inv(buf, f),
        !in_window(f, reader.pos as int, reader.cap()),
    ensures
        reader.pos < reader.resumed(f),
        reader.resumed(f) == f.latest,
        in_window(f, reader.resumed(f) as int, reader.cap()),
        framed(buf, reader.resumed(f) as int, f.tail as int),
{
}

/// A byte ring at one moment: what the producer has committed and declared,
/// and the bytes.
pub struct LogMoment {
    pub tail: int,
    pub intent: int,
    pub buf: Seq<u8>,
}

/// The bytes that differ are at offsets of positions between `from` and `to`.
pub open spec fn touches(before: Seq<u8>, after: Seq<u8>, from: int, to: int) -> bool {
    &&& after.len() == before.len()
    &&& forall|o: int|
        0 <= o < before.len() && #[trigger] after[o] != before[o] ==> exists|m: int|
            from <= m < to && #[trigger] (m % before.len() as int) == o
}

/// One thing that a producer does: declare more, write some of what it has
/// declared and not committed, or commit what it has declared.
pub open spec fn producer_step(a: LogMoment, b: LogMoment) -> bool {
    &&& b.intent >= a.intent
    &&& a.tail <= b.tail <= b.intent
    &&& touches(a.buf, b.buf, a.tail, a.intent)
}

/// A run of a producer.
pub open spec fn producer_run(run: Seq<LogMoment>) -> bool {
    forall|t: int| 0 <= t < run.len() - 1 ==> producer_step(#[trigger] run[t], run[t + 1])
}

/// A copy that passes the window check is exact, however the producer ran
/// meanwhile: each of its bytes, read at any moment between the first look at
/// the tail and the last look at the intent, is the byte that was committed.
pub proof fn a_windowed_byte_is_never_torn(
    run: Seq<LogMoment>,
    first: int,
    read: int,
    last: int,
    position: int,
)
    requires
        producer_run(run),
        0 <= first <= read <= last < run.len(),
        run[first].buf.len() > 0,
        position < run[first].tail,
        run[last].intent - position <= run[first].buf.len(),
    ensures
        run[read].buf.len() == run[first].buf.len(),
        byte(run[read].buf, position) == byte(run[first].buf, position),
        run[first].tail <= run[read].tail,
        run[read].intent <= run[last].intent,
    decreases read - first,
{
    lemma_intent_grows(run, read, last);
    if read > first {
        a_windowed_byte_is_never_torn(run, first, read - 1, last, position);
        let a = run[read - 1];
        let b = run[read];
        assert(producer_step(run[read - 1], run[(read - 1) + 1]));
        lemma_intent_grows(run, read - 1, last);
        let cap = a.buf.len() as int;
        let o = position % cap;
        lemma_mod_bound(position, cap);
        if b.buf[o] != a.buf[o] {
            let m = choose|m: int| a.tail <= m < a.intent && #[trigger] (m % cap) == o;
            lemma_distinct_positions(position, m, cap);
        }
    }
}

proof fn lemma_intent_grows(run: Seq<LogMoment>, from: int, to: int)
    requires
        producer_run(run),
        0 <= from <= to < run.len(),
    ensures
        run[from].intent <= run[to].intent,
    decreases to - from,
{
    if from < to {
        lemma_intent_grows(run, from, to - 1);
        assert(producer_step(run[to - 1], run[(to - 1) + 1]));
    }
}

/// A copied record is exact where the window check passes after the copy.
pub proof fn a_windowed_copy_is_exact(
    run: Seq<LogMoment>,
    first: int,
    reads: Seq<int>,
    last: int,
    position: int,
    copy: Seq<u8>,
)
    requires
        producer_run(run),
        0 <= first <= last < run.len(),
        run[first].buf.len() > 0,
        reads.len() == copy.len(),
        position + copy.len() <= run[first].tail,
        run[last].intent - position <= run[first].buf.len(),
        forall|k: int|
            0 <= k < copy.len() ==> first <= #[trigger] reads[k] <= last && copy[k] == byte(
                run[reads[k]].buf,
                position + k,
            ),
    ensures
        forall|k: int|
            0 <= k < copy.len() ==> #[trigger] copy[k] == byte(run[first].buf, position + k),
{
    assert forall|k: int| 0 <= k < copy.len() implies #[trigger] copy[k] == byte(
        run[first].buf,
        position + k,
    ) by {
        assert(first <= reads[k] <= last);
        a_windowed_byte_is_never_torn(run, first, reads[k], last, position + k);
    }
}

/// The moments of a run at which a reader looks at a frame: at the tail first,
/// then twice at frontier, length field and frontier, and at the frontier
/// after the copy.
pub struct Looks {
    pub tail: int,
    pub before: int,
    pub header: int,
    pub after: int,
    pub second_before: int,
    pub second_header: int,
    pub second_after: int,
    pub last: int,
}

impl Looks {
    /// The looks are taken in this order.
    pub open spec fn ordered(self, run: Seq<LogMoment>) -> bool {
        &&& 0 <= self.tail <= self.before <= self.header <= self.after
        &&& self.after <= self.second_before <= self.second_header <= self.second_after
        &&& self.second_after <= self.last < run.len()
    }

    /// What the first look at the frame at `pos` shows.
    pub open spec fn first(self, run: Seq<LogMoment>, pos: int) -> Glimpse {
        Glimpse {
            before: run[self.before].intent as u64,
            header: header(run[self.header].buf, pos) as u32,
            after: run[self.after].intent as u64,
        }
    }

    /// What the look past the padding shows.
    pub open spec fn second(self, run: Seq<LogMoment>, pos: int) -> Glimpse {
        let cap = run[self.tail].buf.len() as int;
        Glimpse {
            before: run[self.second_before].intent as u64,
            header: header(run[self.second_header].buf, pos + (cap - pos % cap)) as u32,
            after: run[self.second_after].intent as u64,
        }
    }

    /// What the reader makes of its looks at the frame at `pos`.
    pub open spec fn verdict(self, run: Seq<LogMoment>, pos: u64) -> Option<(u64, usize)> {
        accepted_record(
            pos,
            run[self.tail].buf.len() as int,
            self.first(run, pos as int),
            self.second(run, pos as int),
            run[self.last].intent as u64,
        )
    }
}

/// However the producer runs while a reader looks at a committed frame, the
/// reader's verdict is right: it places the record where it was committed,
/// with its length, if the frontier is at most a lap past the frame in the
/// end, and says that the frame was overrun if it is not.
pub proof fn a_verdict_is_right(run: Seq<LogMoment>, looks: Looks, pos: u64)
    requires
        producer_run(run),
        looks.ordered(run),
        byte_capacity(run[looks.tail].buf.len() as int),
        frame_ok(run[looks.tail].buf, pos as int),
        end_of(run[looks.tail].buf, pos as int) <= run[looks.tail].tail <= run[looks.tail].intent,
        pos + 2 * run[looks.tail].buf.len() <= u64::MAX,
        run[looks.last].intent <= u64::MAX,
    ensures
        looks.verdict(run, pos) == (if run[looks.last].intent - pos
            <= run[looks.tail].buf.len() {
            Some(
                (
                    start_of(run[looks.tail].buf, pos as int) as u64,
                    len_at(run[looks.tail].buf, pos as int) as usize,
                ),
            )
        } else {
            None
        }),
{
    let a = run[looks.tail].buf;
    let cap = a.len() as int;
    let p = pos as int;
    lemma_records_fit(cap, 0);
    lemma_frame_grows(a, p);
    lemma_wrap(p, cap);
    lemma_start(a, p);
    lemma_intent_grows(run, looks.tail, looks.before);
    lemma_intent_grows(run, looks.before, looks.last);
    lemma_intent_grows(run, looks.after, looks.last);
    lemma_intent_grows(run, looks.tail, looks.after);
    lemma_intent_grows(run, looks.tail, looks.second_before);
    lemma_intent_grows(run, looks.second_before, looks.last);
    lemma_intent_grows(run, looks.tail, looks.second_after);
    lemma_intent_grows(run, looks.second_after, looks.last);
    lemma_intent_grows(run, looks.tail, looks.last);
    if run[looks.last].intent - p <= cap {
        lemma_header_kept(run, looks.tail, looks.header, looks.last, p, p);
        let s = p + (cap - p % cap);
        if header(a, p) == PADDING {
            assert(s == start_of(a, p));
            lemma_header_kept(run, looks.tail, looks.second_header, looks.last, p, s);
        }
    }
}

/// A length field in the window is the one that was committed.
proof fn lemma_header_kept(
    run: Seq<LogMoment>,
    first: int,
    read: int,
    last: int,
    pos: int,
    at: int,
)
    requires
        producer_run(run),
        0 <= first <= read <= last < run.len(),
        run[first].buf.len() > 0,
        pos <= at,
        at + 4 <= run[first].tail,
        run[last].intent - pos <= run[first].buf.len(),
    ensures
        header(run[read].buf, at) == header(run[first].buf, at),
{
    a_windowed_byte_is_never_torn(run, first, read, last, at);
    a_windowed_byte_is_never_torn(run, first, read, last, at + 1);
    a_windowed_byte_is_never_torn(run, first, read, last, at + 2);
    a_windowed_byte_is_never_torn(run, first, read, last, at + 3);
}

/// A message that a reader keeps, copied byte by byte at any moments between
/// its looks, is the message that was committed, whole.
pub proof fn a_kept_message_is_exact(
    run: Seq<LogMoment>,
    looks: Looks,
    pos: u64,
    reads: Seq<int>,
    copy: Seq<u8>,
)
    requires
        producer_run(run),
        looks.ordered(run),
        byte_capacity(run[looks.tail].buf.len() as int),
        frame_ok(run[looks.tail].buf, pos as int),
        end_of(run[looks.tail].buf, pos as int) <= run[looks.tail].tail <= run[looks.tail].intent,
        pos + 2 * run[looks.tail].buf.len() <= u64::MAX,
        run[looks.last].intent <= u64::MAX,
        looks.verdict(run, pos) is Some,
        copy.len() == (looks.verdict(run, pos)->0).1,
        reads.len() == copy.len(),
        forall|k: int|
            0 <= k < copy.len() ==> looks.tail <= #[trigger] reads[k] <= looks.last && copy[k]
                == byte(run[reads[k]].buf, (looks.verdict(run, pos)->0).0 + HEADER + k),
    ensures
        copy == message_at(run[looks.tail].buf, pos as int),
{
    let a = run[looks.tail].buf;
    let p = pos as int;
    a_verdict_is_right(run, looks, pos);
    lemma_records_fit(a.len() as int, 0);
    lemma_frame_grows(a, p);
    assert forall|k: int| 0 <= k < copy.len() implies #[trigger] copy[k] == message_at(a, p)[k] by {
        assert(looks.tail <= reads[k] <= looks.last);
        a_windowed_byte_is_never_torn(
            run,
            looks.tail,
            reads[k],
            looks.last,
            start_of(a, p) + HEADER + k,
        );
    }
    assert(copy =~= message_at(a, p));
}

} // verus!
