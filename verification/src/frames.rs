//! The framing of the byte rings.
//!
//! A record is a four-byte length and the message, filled up to a multiple of
//! eight bytes. A record never wraps: where it does not fit before the end of
//! the buffer, a padding marker fills the rest and the record starts at
//! offset zero. A frame is a record with the padding before it.
//!
//! Positions count bytes since the ring was made; the byte at position `p` is
//! at offset `p % capacity`.

use crate::arith::{lemma_eighths, ring_capacity, slot_index};
use crate::atomic_copy::{
    copy_in_lanes, lane_at, lane_byte, lanes, store_lane, with_lane, with_payload,
};
use vstd::arithmetic::div_mod::{
    lemma_fundamental_div_mod, lemma_fundamental_div_mod_converse, lemma_mod_bound, lemma_mod_mod,
};
use vstd::arithmetic::power2::is_pow2;
use vstd::prelude::*;

verus! {

/// Bytes in a record's length field.
pub const HEADER: usize = 4;

/// Records and positions are multiples of this.
pub const ALIGN: usize = 8;

/// The length field that marks padding.
pub const PADDING: u32 = u32::MAX;

/// Bytes of a record with a message of `len` bytes.
pub open spec fn record(len: int) -> int {
    (HEADER + len + 7) / 8 * 8
}

/// The longest message of a ring.
pub open spec fn max_len(capacity: int) -> int {
    if capacity / 8 < PADDING - 1 {
        capacity / 8
    } else {
        PADDING - 1
    }
}

/// `n` rounded up to a multiple of [`ALIGN`].
pub fn align_up(n: usize) -> (r: usize)
    requires
        n <= usize::MAX - 7,
    ensures
        r == (n + 7) / 8 * 8,
{
    (n + (ALIGN - 1)) / ALIGN * ALIGN
}

/// Bytes of a record with a message of `len` bytes, header and fill included.
pub fn record_len(len: usize) -> (r: usize)
    requires
        len <= usize::MAX - 11,
    ensures
        r == record(len as int),
{
    align_up(HEADER + len)
}

/// The longest message of a ring: an eighth of its capacity.
pub fn max_message_len(capacity: usize) -> (r: usize)
    ensures
        r == max_len(capacity as int),
{
    let cap: usize = capacity / 8;
    let header_space: usize = (PADDING - 1) as usize;
    if cap < header_space {
        cap
    } else {
        header_space
    }
}

/// A capacity that a byte ring can have.
pub open spec fn byte_capacity(capacity: int) -> bool {
    ring_capacity(capacity) && capacity >= 8
}

/// Every capacity is a multiple of the record alignment, and two records less
/// one alignment unit fit: the longest frame, padding included, fits.
pub proof fn lemma_records_fit(capacity: int, len: int)
    requires
        byte_capacity(capacity),
        0 <= len <= max_len(capacity),
    ensures
        capacity % 8 == 0,
        record(len) % 8 == 0,
        8 <= record(len) <= capacity,
        HEADER + len <= record(len),
        HEADER + lanes(len) <= record(len),
        2 * record(len) - 8 <= capacity,
{
    reveal_with_fuel(is_pow2, 7);
    if capacity < 64 {
        assert(capacity == 8 || capacity == 16 || capacity == 32);
    }
}

/// The padding before a record of a message of `len` bytes at position
/// `next`.
pub open spec fn pad_for(next: int, len: int, capacity: int) -> int {
    if record(len) <= capacity - next % capacity {
        0
    } else {
        capacity - next % capacity
    }
}

/// Bytes of the frame of a message of `len` bytes at position `next`.
pub open spec fn total_for(next: int, len: int, capacity: int) -> int {
    pad_for(next, len, capacity) + record(len)
}

/// The frame of a message of `len` bytes at position `next`: the padding and
/// the whole.
pub fn frame(next: u64, mask: u64, len: usize) -> (r: (u64, u64))
    requires
        byte_capacity(mask + 1),
        len <= max_len(mask + 1),
        next % 8 == 0,
    ensures
        r.0 == pad_for(next as int, len as int, mask + 1),
        r.1 == total_for(next as int, len as int, mask + 1),
        r.1 <= mask + 1,
{
    let capacity: u64 = mask + 1;
    proof {
        lemma_records_fit(capacity as int, len as int);
        lemma_frame_fits(next as int, len as int, capacity as int);
    }
    let record: u64 = record_len(len) as u64;
    let off: u64 = slot_index(next, mask) as u64;
    let to_end: u64 = capacity - off;
    if record <= to_end {
        (0, record)
    } else {
        (to_end, to_end + record)
    }
}

/// The most bytes that a frame of a ring occupies, padding included.
pub open spec fn max_span(capacity: int) -> int {
    2 * record(max_len(capacity)) - 8
}

/// The most bytes that a frame of a ring occupies.
pub fn max_record_span(capacity: usize) -> (r: usize)
    requires
        byte_capacity(capacity as int),
    ensures
        r == max_span(capacity as int),
{
    proof {
        lemma_records_fit(capacity as int, max_len(capacity as int));
    }
    2 * record_len(max_message_len(capacity)) - ALIGN
}

/// No frame occupies a whole ring of sixteen bytes or more: a producer
/// without consumers, which sees its own cursor one unit behind, always has
/// room for it.
pub proof fn a_frame_fits_under_a_free_run(next: int, len: int, capacity: int)
    requires
        byte_capacity(capacity),
        capacity >= 16,
        0 <= len <= max_len(capacity),
        0 <= next,
        next % 8 == 0,
    ensures
        0 < total_for(next, len, capacity) <= max_span(capacity) < capacity,
{
    reveal_with_fuel(is_pow2, 7);
    if capacity < 64 {
        assert(capacity == 16 || capacity == 32);
    }
    lemma_records_fit(capacity, len);
    lemma_aligned_offset(next, capacity);
    assert(record(len) <= record(max_len(capacity)));
}

/// A starving producer's span is less than half of a ring of 64 bytes or
/// more: a consumer that is less than half a ring behind never publishes
/// early on its account.
pub proof fn a_starving_threshold_exceeds_half(capacity: int)
    requires
        byte_capacity(capacity),
        capacity >= 64,
    ensures
        capacity - max_span(capacity) > capacity / 2,
{
    reveal_with_fuel(is_pow2, 8);
    if capacity < 128 {
        assert(capacity == 64);
    }
}

/// A position is at its offset, and so are the bytes after it up to the end
/// of the buffer.
pub proof fn lemma_offset(p: int, k: int, capacity: int)
    requires
        0 <= p,
        0 <= k,
        capacity > 0,
        p % capacity + k < capacity,
    ensures
        (p + k) % capacity == p % capacity + k,
{
    lemma_fundamental_div_mod(p, capacity);
    lemma_mod_bound(p, capacity);
    assert(p + k == (p / capacity) * capacity + (p % capacity + k)) by (nonlinear_arith)
        requires
            p == capacity * (p / capacity) + p % capacity,
    ;
    lemma_fundamental_div_mod_converse(p + k, capacity, p / capacity, p % capacity + k);
}

/// The end of the buffer is the start of the next lap.
pub proof fn lemma_wrap(p: int, capacity: int)
    requires
        0 <= p,
        capacity > 0,
    ensures
        (p + (capacity - p % capacity)) % capacity == 0,
        0 < capacity - p % capacity <= capacity,
{
    lemma_fundamental_div_mod(p, capacity);
    lemma_mod_bound(p, capacity);
    assert(p + (capacity - p % capacity) == (p / capacity + 1) * capacity) by (nonlinear_arith)
        requires
            p == capacity * (p / capacity) + p % capacity,
    ;
    lemma_fundamental_div_mod_converse(
        p + (capacity - p % capacity),
        capacity,
        p / capacity + 1,
        0,
    );
}

/// Offsets of aligned positions are aligned.
pub proof fn lemma_aligned_offset(p: int, capacity: int)
    requires
        0 <= p,
        p % 8 == 0,
        capacity > 0,
        capacity % 8 == 0,
    ensures
        (p % capacity) % 8 == 0,
        0 <= p % capacity <= capacity - 8,
{
    lemma_mod_mod(p, 8, capacity / 8);
    assert(8 * (capacity / 8) == capacity);
    lemma_mod_bound(p, capacity);
}

/// A frame fits the ring, and its record lies in one piece.
pub proof fn lemma_frame_fits(next: int, len: int, capacity: int)
    requires
        byte_capacity(capacity),
        0 <= len <= max_len(capacity),
        0 <= next,
        next % 8 == 0,
    ensures
        0 <= pad_for(next, len, capacity) < capacity,
        pad_for(next, len, capacity) % 8 == 0,
        total_for(next, len, capacity) <= capacity,
        total_for(next, len, capacity) % 8 == 0,
        (next + pad_for(next, len, capacity)) % capacity + record(len) <= capacity,
        pad_for(next, len, capacity) > 0 ==> (next + pad_for(next, len, capacity)) % capacity == 0,
{
    lemma_records_fit(capacity, len);
    lemma_aligned_offset(next, capacity);
    if pad_for(next, len, capacity) > 0 {
        lemma_wrap(next, capacity);
    }
}

/// The byte at a position.
pub open spec fn byte(buf: Seq<u8>, p: int) -> u8 {
    buf[p % buf.len() as int]
}

/// The length field at a position.
pub open spec fn header(buf: Seq<u8>, p: int) -> int {
    byte(buf, p) + 0x100 * byte(buf, p + 1) + 0x1_0000 * byte(buf, p + 2) + 0x100_0000 * byte(
        buf,
        p + 3,
    )
}

/// Where the record of the frame at `p` starts.
pub open spec fn start_of(buf: Seq<u8>, p: int) -> int {
    if header(buf, p) == PADDING {
        p + (buf.len() - p % buf.len() as int)
    } else {
        p
    }
}

/// The length of the message of the frame at `p`.
pub open spec fn len_at(buf: Seq<u8>, p: int) -> int {
    header(buf, start_of(buf, p))
}

/// Where the frame at `p` ends.
pub open spec fn end_of(buf: Seq<u8>, p: int) -> int {
    start_of(buf, p) + record(len_at(buf, p))
}

/// The message of the frame at `p`.
pub open spec fn message_at(buf: Seq<u8>, p: int) -> Seq<u8> {
    Seq::new(len_at(buf, p) as nat, |k: int| byte(buf, start_of(buf, p) + HEADER + k))
}

/// The length field of the frame at `p` is one that a record at its place can
/// have.
pub open spec fn whole(buf: Seq<u8>, p: int) -> bool {
    let cap = buf.len() as int;
    &&& len_at(buf, p) <= max_len(cap)
    &&& record(len_at(buf, p)) <= cap - start_of(buf, p) % cap
}

/// A frame that a producer can have written is at `p`.
pub open spec fn frame_ok(buf: Seq<u8>, p: int) -> bool {
    let cap = buf.len() as int;
    &&& 0 <= p
    &&& p % 8 == 0
    &&& len_at(buf, p) <= max_len(cap)
    &&& record(len_at(buf, p)) <= cap - start_of(buf, p) % cap
    &&& end_of(buf, p) - p <= cap
}

/// The bytes between two positions are a run of frames.
pub open spec fn framed(buf: Seq<u8>, p: int, tail: int) -> bool
    decreases tail - p,
{
    ||| p == tail
    ||| (p < end_of(buf, p) <= tail && frame_ok(buf, p) && framed(buf, end_of(buf, p), tail))
}

/// The messages of a run of frames.
pub open spec fn messages(buf: Seq<u8>, p: int, tail: int) -> Seq<Seq<u8>>
    decreases tail - p,
{
    if p < end_of(buf, p) <= tail {
        seq![message_at(buf, p)] + messages(buf, end_of(buf, p), tail)
    } else {
        seq![]
    }
}

/// Two buffers hold the same bytes between two positions.
pub open spec fn agree(a: Seq<u8>, b: Seq<u8>, from: int, to: int) -> bool {
    &&& a.len() == b.len()
    &&& forall|i: int| from <= i < to ==> #[trigger] byte(a, i) == byte(b, i)
}

/// Where a record starts, whatever the bytes are.
pub proof fn lemma_start(buf: Seq<u8>, p: int)
    requires
        byte_capacity(buf.len() as int),
        0 <= p,
        p % 8 == 0,
    ensures
        p <= start_of(buf, p) <= p + buf.len(),
        start_of(buf, p) % 8 == 0,
        header(buf, p) == PADDING ==> start_of(buf, p) % buf.len() as int == 0,
        0 <= len_at(buf, p) <= PADDING,
{
    let cap = buf.len() as int;
    lemma_records_fit(cap, 0);
    lemma_aligned_offset(p, cap);
    lemma_wrap(p, cap);
    lemma_frame_sums(p, cap, p % cap, 8);
}

/// A frame ends after it starts.
pub proof fn lemma_frame_grows(buf: Seq<u8>, p: int)
    requires
        frame_ok(buf, p),
        byte_capacity(buf.len() as int),
    ensures
        p <= start_of(buf, p),
        start_of(buf, p) + HEADER + len_at(buf, p) <= end_of(buf, p),
        p + 8 <= end_of(buf, p),
        end_of(buf, p) % 8 == 0,
        start_of(buf, p) % 8 == 0,
        header(buf, p) == PADDING ==> start_of(buf, p) % buf.len() as int == 0,
        header(buf, p) == PADDING ==> p + 8 <= start_of(buf, p),
{
    let cap = buf.len() as int;
    let len = len_at(buf, p);
    lemma_records_fit(cap, len);
    lemma_aligned_offset(p, cap);
    lemma_wrap(p, cap);
    lemma_frame_sums(p, cap, p % cap, record(len));
}

proof fn lemma_frame_sums(p: int, cap: int, off: int, rec: int)
    requires
        0 <= p,
        p % 8 == 0,
        cap % 8 == 0,
        off % 8 == 0,
        0 <= off <= cap - 8,
        rec % 8 == 0,
        rec >= 8,
    ensures
        (p + (cap - off)) % 8 == 0,
        (p + (cap - off) + rec) % 8 == 0,
        (p + rec) % 8 == 0,
        p + 8 <= p + (cap - off),
{
}

/// A frame is made of its own bytes.
pub proof fn lemma_frame_agrees(a: Seq<u8>, b: Seq<u8>, p: int)
    requires
        byte_capacity(a.len() as int),
        frame_ok(a, p),
        agree(a, b, p, end_of(a, p)),
    ensures
        frame_ok(b, p),
        start_of(b, p) == start_of(a, p),
        end_of(b, p) == end_of(a, p),
        message_at(b, p) == message_at(a, p),
{
    lemma_frame_grows(a, p);
    let s = start_of(a, p);
    assert(byte(a, p) == byte(b, p));
    assert(byte(a, p + 1) == byte(b, p + 1));
    assert(byte(a, p + 2) == byte(b, p + 2));
    assert(byte(a, p + 3) == byte(b, p + 3));
    assert(start_of(b, p) == s);
    assert(byte(a, s) == byte(b, s));
    assert(byte(a, s + 1) == byte(b, s + 1));
    assert(byte(a, s + 2) == byte(b, s + 2));
    assert(byte(a, s + 3) == byte(b, s + 3));
    assert(message_at(b, p) =~= message_at(a, p));
}

/// A run of frames is made of its own bytes.
pub proof fn lemma_run_agrees(a: Seq<u8>, b: Seq<u8>, p: int, tail: int)
    requires
        byte_capacity(a.len() as int),
        framed(a, p, tail),
        agree(a, b, p, tail),
    ensures
        framed(b, p, tail),
        messages(b, p, tail) == messages(a, p, tail),
    decreases tail - p,
{
    if p != tail {
        lemma_frame_agrees(a, b, p);
        lemma_frame_grows(a, p);
        lemma_run_agrees(a, b, end_of(a, p), tail);
    } else {
        lemma_no_messages(a, p);
        lemma_no_messages(b, p);
    }
}

/// An empty run has no messages.
pub proof fn lemma_no_messages(buf: Seq<u8>, p: int)
    ensures
        messages(buf, p, p) == Seq::<Seq<u8>>::empty(),
{
}

/// A run followed by a frame is a run with one more message.
pub proof fn lemma_run_extends(buf: Seq<u8>, p: int, mid: int, tail: int)
    requires
        byte_capacity(buf.len() as int),
        framed(buf, p, mid),
        frame_ok(buf, mid),
        end_of(buf, mid) == tail,
    ensures
        framed(buf, p, tail),
        messages(buf, p, tail) == messages(buf, p, mid).push(message_at(buf, mid)),
    decreases mid - p,
{
    lemma_frame_grows(buf, mid);
    if p == mid {
        lemma_no_messages(buf, p);
        lemma_no_messages(buf, tail);
        assert(framed(buf, tail, tail));
        assert(messages(buf, p, tail) =~= messages(buf, p, mid).push(message_at(buf, mid)));
    } else {
        lemma_run_extends(buf, end_of(buf, p), mid, tail);
        assert(messages(buf, p, tail) =~= messages(buf, p, mid).push(message_at(buf, mid)));
    }
}

/// Two runs in a row are a run.
pub proof fn lemma_runs_join(buf: Seq<u8>, p: int, mid: int, tail: int)
    requires
        byte_capacity(buf.len() as int),
        framed(buf, p, mid),
        framed(buf, mid, tail),
        mid <= tail,
    ensures
        framed(buf, p, tail),
        messages(buf, p, tail) == messages(buf, p, mid) + messages(buf, mid, tail),
    decreases mid - p,
{
    if p == mid {
        lemma_no_messages(buf, p);
        assert(messages(buf, p, tail) =~= messages(buf, p, mid) + messages(buf, mid, tail));
    } else {
        lemma_frame_grows(buf, p);
        lemma_runs_join(buf, end_of(buf, p), mid, tail);
        assert(messages(buf, p, tail) =~= messages(buf, p, mid) + messages(buf, mid, tail));
    }
}

/// The record of a frame is a frame by itself: padding can be skipped.
pub proof fn lemma_skip_padding(buf: Seq<u8>, p: int, tail: int)
    requires
        byte_capacity(buf.len() as int),
        framed(buf, p, tail),
        p != tail,
    ensures
        frame_ok(buf, start_of(buf, p)),
        start_of(buf, start_of(buf, p)) == start_of(buf, p),
        end_of(buf, start_of(buf, p)) == end_of(buf, p),
        message_at(buf, start_of(buf, p)) == message_at(buf, p),
        framed(buf, start_of(buf, p), tail),
        messages(buf, start_of(buf, p), tail) == messages(buf, p, tail),
{
    lemma_frame_grows(buf, p);
    let s = start_of(buf, p);
    assert(start_of(buf, s) == s);
    assert(message_at(buf, s) =~= message_at(buf, p));
}

/// A run ends at an aligned position, not before it starts.
pub proof fn lemma_run_ends(buf: Seq<u8>, p: int, tail: int)
    requires
        byte_capacity(buf.len() as int),
        framed(buf, p, tail),
        p % 8 == 0,
    ensures
        p <= tail,
        tail % 8 == 0,
    decreases tail - p,
{
    if p != tail {
        lemma_frame_grows(buf, p);
        lemma_run_ends(buf, end_of(buf, p), tail);
    }
}

/// The buffer after the frame of a message has been written at `next`.
#[verifier::opaque]
pub open spec fn with_frame(buf: Seq<u8>, next: int, msg: Seq<u8>) -> Seq<u8> {
    let cap = buf.len() as int;
    let pad = pad_for(next, msg.len() as int, cap);
    let rec_off = (next + pad) % cap;
    let marked = if pad > 0 {
        with_lane(buf, next % cap, PADDING)
    } else {
        buf
    };
    with_payload(with_lane(marked, rec_off, msg.len() as u32), rec_off + HEADER, msg)
}

/// Write the frame of a message at `next`: the padding marker where one is
/// needed, the length, and the message.
pub fn write_frame(buf: &mut Vec<u8>, mask: u64, next: u64, pad: u64, msg: &[u8])
    requires
        old(buf)@.len() == mask + 1,
        byte_capacity(mask + 1),
        msg@.len() <= max_len(mask + 1),
        next % 8 == 0,
        next + 2 * (mask + 1) <= u64::MAX,
        pad == pad_for(next as int, msg@.len() as int, mask + 1),
    ensures
        final(buf)@ == with_frame(old(buf)@, next as int, msg@),
        final(buf)@.len() == old(buf)@.len(),
{
    let len: usize = msg.len();
    let off: usize = slot_index(next, mask);
    proof {
        reveal(with_frame);
        lemma_records_fit(mask + 1, len as int);
        lemma_frame_fits(next as int, len as int, mask + 1);
        lemma_aligned_offset(next as int, mask + 1);
    }
    let rec_off: usize = slot_index(next + pad, mask);
    if pad > 0 {
        store_lane(buf, off, PADDING);
    }
    store_lane(buf, rec_off, len as u32);
    copy_in_lanes(msg, buf, rec_off + HEADER);
}

/// A written frame is read back, and the bytes of the lap before it are as
/// they were.
pub proof fn a_frame_round_trips(buf: Seq<u8>, next: int, msg: Seq<u8>)
    requires
        byte_capacity(buf.len() as int),
        msg.len() <= max_len(buf.len() as int),
        0 <= next,
        next % 8 == 0,
    ensures
        with_frame(buf, next, msg).len() == buf.len(),
        frame_ok(with_frame(buf, next, msg), next),
        start_of(with_frame(buf, next, msg), next) == next + pad_for(
            next,
            msg.len() as int,
            buf.len() as int,
        ),
        end_of(with_frame(buf, next, msg), next) == next + total_for(
            next,
            msg.len() as int,
            buf.len() as int,
        ),
        message_at(with_frame(buf, next, msg), next) == msg,
        frame_ok(
            with_frame(buf, next, msg),
            next + pad_for(next, msg.len() as int, buf.len() as int),
        ),
        start_of(
            with_frame(buf, next, msg),
            next + pad_for(next, msg.len() as int, buf.len() as int),
        ) == next + pad_for(next, msg.len() as int, buf.len() as int),
        message_at(
            with_frame(buf, next, msg),
            next + pad_for(next, msg.len() as int, buf.len() as int),
        ) == msg,
        agree(
            buf,
            with_frame(buf, next, msg),
            next + total_for(next, msg.len() as int, buf.len() as int) - buf.len(),
            next,
        ),
{
    let cap = buf.len() as int;
    let len = msg.len() as int;
    let pad = pad_for(next, len, cap);
    let start = next + pad;
    let after = with_frame(buf, next, msg);
    lemma_records_fit(cap, len);
    lemma_frame_fits(next, len, cap);
    lemma_aligned_offset(next, cap);
    assert(after.len() == buf.len()) by {
        reveal(with_frame);
    }
    lemma_written_headers(buf, next, msg);
    lemma_header_is_lane(after, next);
    lemma_header_is_lane(after, start);
    lemma_written_payload(buf, next, msg);
    assert(start_of(after, next) == start);
    assert(start_of(after, start) == start);
    assert(message_at(after, next) =~= msg);
    assert(message_at(after, start) =~= msg);
    assert forall|i: int|
        next + total_for(next, len, cap) - cap <= i < next implies #[trigger] byte(buf, i) == byte(
        after,
        i,
    ) by {
        lemma_written_bytes(buf, next, msg, i);
    }
}

/// The length field at an aligned position is a lane.
pub proof fn lemma_header_is_lane(buf: Seq<u8>, p: int)
    requires
        byte_capacity(buf.len() as int),
        0 <= p,
        p % 8 == 0,
    ensures
        header(buf, p) == lane_at(buf, p % buf.len() as int),
{
    let cap = buf.len() as int;
    lemma_records_fit(cap, 0);
    lemma_aligned_offset(p, cap);
    lemma_offset(p, 1, cap);
    lemma_offset(p, 2, cap);
    lemma_offset(p, 3, cap);
}

#[verifier::spinoff_prover]
#[verifier::rlimit(40)]
proof fn lemma_written_headers(buf: Seq<u8>, next: int, msg: Seq<u8>)
    requires
        byte_capacity(buf.len() as int),
        msg.len() <= max_len(buf.len() as int),
        0 <= next,
        next % 8 == 0,
    ensures
        ({
            let cap = buf.len() as int;
            let pad = pad_for(next, msg.len() as int, cap);
            let after = with_frame(buf, next, msg);
            &&& lane_at(after, (next + pad) % cap) == msg.len()
            &&& pad > 0 ==> lane_at(after, next % cap) == PADDING
        }),
{
    reveal(with_frame);
    let cap = buf.len() as int;
    let len = msg.len() as int;
    let pad = pad_for(next, len, cap);
    lemma_records_fit(cap, len);
    lemma_frame_fits(next, len, cap);
    lemma_aligned_offset(next, cap);
}

proof fn lemma_written_payload(buf: Seq<u8>, next: int, msg: Seq<u8>)
    requires
        byte_capacity(buf.len() as int),
        msg.len() <= max_len(buf.len() as int),
        0 <= next,
        next % 8 == 0,
    ensures
        forall|k: int|
            0 <= k < msg.len() ==> #[trigger] byte(
                with_frame(buf, next, msg),
                next + pad_for(next, msg.len() as int, buf.len() as int) + HEADER + k,
            ) == msg[k],
{
    reveal(with_frame);
    let cap = buf.len() as int;
    let len = msg.len() as int;
    let start = next + pad_for(next, len, cap);
    lemma_records_fit(cap, len);
    lemma_frame_fits(next, len, cap);
    assert forall|k: int| 0 <= k < len implies #[trigger] byte(
        with_frame(buf, next, msg),
        start + HEADER + k,
    ) == msg[k] by {
        lemma_offset(start, HEADER + k, cap);
    }
}

/// Writing a frame leaves a byte of the lap before it alone.
proof fn lemma_written_bytes(buf: Seq<u8>, next: int, msg: Seq<u8>, i: int)
    requires
        byte_capacity(buf.len() as int),
        msg.len() <= max_len(buf.len() as int),
        0 <= next,
        next % 8 == 0,
        next + total_for(next, msg.len() as int, buf.len() as int) - buf.len() <= i < next,
    ensures
        byte(buf, i) == byte(with_frame(buf, next, msg), i),
{
    reveal(with_frame);
    let cap = buf.len() as int;
    let len = msg.len() as int;
    let pad = pad_for(next, len, cap);
    let start = next + pad;
    let off = next % cap;
    let rec_off = start % cap;
    lemma_records_fit(cap, len);
    lemma_frame_fits(next, len, cap);
    lemma_aligned_offset(next, cap);
    let o = i % cap;
    lemma_mod_any(i, cap);
    if off <= o < off + 4 && pad > 0 {
        lemma_offset(next, o - off, cap);
        lemma_distinct_positions(i, next + (o - off), cap);
    }
    if rec_off <= o < rec_off + HEADER + lanes(len) {
        lemma_offset(start, o - rec_off, cap);
        lemma_distinct_positions(i, start + (o - rec_off), cap);
    }
}

proof fn lemma_mod_any(i: int, capacity: int)
    requires
        capacity > 0,
    ensures
        0 <= i % capacity < capacity,
{
    lemma_mod_bound(i, capacity);
}

/// Two positions less than a lap apart have different offsets.
pub proof fn lemma_distinct_positions(a: int, b: int, capacity: int)
    requires
        a < b < a + capacity,
    ensures
        a % capacity != b % capacity,
{
    lemma_fundamental_div_mod(a, capacity);
    lemma_fundamental_div_mod(b, capacity);
    lemma_mod_bound(a, capacity);
    lemma_mod_bound(b, capacity);
    if a % capacity == b % capacity {
        let q: int = b / capacity - a / capacity;
        assert(b - a == capacity * q) by (nonlinear_arith)
            requires
                a == capacity * (a / capacity) + a % capacity,
                b == capacity * (b / capacity) + b % capacity,
                a % capacity == b % capacity,
                q == b / capacity - a / capacity,
        ;
        assert(false) by (nonlinear_arith)
            requires
                b - a == capacity * q,
                0 < b - a < capacity,
        ;
    }
}

/// A record is its message behind four bytes of length, rounded up to the next
/// multiple of eight.
pub proof fn a_record_is_its_message_rounded_up(len: int)
    requires
        0 <= len,
    ensures
        record(len) % 8 == 0,
        len + 4 <= record(len) < len + 12,
{
}

/// The longest message of a ring is an eighth of it, as far as a length field
/// counts below the mark of padding.
pub proof fn the_longest_message_is_an_eighth(capacity: int)
    requires
        byte_capacity(capacity),
    ensures
        max_len(capacity) <= 0xffff_fffe,
        capacity <= 0x7_0000_0000 ==> 8 * max_len(capacity) == capacity,
        max_len(capacity) == 0xffff_fffe || 8 * max_len(capacity) == capacity,
        capacity < 8 * 0xffff_fffe ==> 8 * max_len(capacity) == capacity,
{
    lemma_eighths(capacity);
}

/// A record never wraps around the end of the buffer: it starts where the
/// previous frame ended if it fits there, and else, behind padding, at the next
/// start of the buffer. There is less padding than record.
pub proof fn a_record_never_wraps(next: int, len: int, capacity: int)
    requires
        byte_capacity(capacity),
        0 <= len <= max_len(capacity),
        0 <= next,
        next % 8 == 0,
    ensures
        ({
            let pad = pad_for(next, len, capacity);
            let rec = record(len);
            let end = next % capacity + rec;
            &&& end <= capacity ==> pad == 0
            &&& end > capacity ==> next % capacity + pad == capacity && 0 < pad < rec
            &&& (next + pad) % capacity + rec <= capacity
            &&& total_for(next, len, capacity) == pad + rec
        }),
{
    lemma_records_fit(capacity, len);
    lemma_frame_fits(next, len, capacity);
    lemma_aligned_offset(next, capacity);
}

/// The span of a ring is the most bytes that a frame of it takes: no frame
/// takes more, and one of the longest message, placed eight bytes short of where
/// it would fit, takes as many.
pub proof fn a_span_is_the_largest_frame(next: int, len: int, capacity: int)
    requires
        byte_capacity(capacity),
        capacity >= 16,
        0 <= len <= max_len(capacity),
        0 <= next,
        next % 8 == 0,
    ensures
        total_for(next, len, capacity) <= max_span(capacity),
        len == max_len(capacity) && next % capacity == capacity - record(len) + 8 ==> total_for(
            next,
            len,
            capacity,
        ) == max_span(capacity),
{
    a_frame_fits_under_a_free_run(next, len, capacity);
    lemma_records_fit(capacity, len);
}

/// What a frame looks like in the buffer: behind any padding, which starts with
/// four bytes of ones, the length of the message, least significant byte first,
/// and the message.
pub proof fn a_frame_is_written_as_laid_down(buf: Seq<u8>, next: int, msg: Seq<u8>, k: int)
    requires
        byte_capacity(buf.len() as int),
        msg.len() <= max_len(buf.len() as int),
        0 <= next,
        next % 8 == 0,
        0 <= k < msg.len(),
    ensures
        ({
            let cap = buf.len() as int;
            let pad = pad_for(next, msg.len() as int, cap);
            let at = (next + pad) % cap;
            let after = with_frame(buf, next, msg);
            &&& after.len() == cap
            &&& after[at] == msg.len() as int % 0x100
            &&& after[at + 1] == msg.len() as int / 0x100 % 0x100
            &&& after[at + 2] == msg.len() as int / 0x1_0000 % 0x100
            &&& after[at + 3] == msg.len() as int / 0x100_0000
            &&& after[at + 4 + k] == msg[k]
            &&& pad > 0 ==> after[next % cap] == 0xff && after[next % cap + 1] == 0xff && after[next
                % cap + 2] == 0xff && after[next % cap + 3] == 0xff
        }),
{
    let cap = buf.len() as int;
    let pad = pad_for(next, msg.len() as int, cap);
    lemma_frame_fits(next, msg.len() as int, cap);
    lemma_records_fit(cap, msg.len() as int);
    lemma_aligned_offset(next, cap);
    lemma_aligned_offset(next + pad, cap);
    a_record_never_wraps(next, msg.len() as int, cap);
    the_longest_message_is_an_eighth(cap);
    let at = (next + pad) % cap;
    let mark = next % cap;
    let len = msg.len() as u32;
    let after = with_frame(buf, next, msg);
    assert(len == msg.len());
    assert(0 <= at && at + 4 + lanes(msg.len() as int) <= cap);
    let marked = if pad > 0 {
        with_lane(buf, mark, PADDING)
    } else {
        buf
    };
    let headed = with_lane(marked, at, len);
    reveal(with_frame);
    assert(after == with_payload(headed, at + 4, msg));
    assert(headed.len() == cap);
    assert(forall|i: int| at <= i < at + 4 ==> after[i] == headed[i]);
    assert(headed[at] == lane_byte(len, 0));
    assert(headed[at + 1] == lane_byte(len, 1));
    assert(headed[at + 2] == lane_byte(len, 2));
    assert(headed[at + 3] == lane_byte(len, 3));
    if pad > 0 {
        assert(at == 0);
        assert(at + 4 + lanes(msg.len() as int) <= mark);
        assert(mark + 8 <= cap);
        assert(forall|i: int| mark <= i < mark + 4 ==> after[i] == marked[i]);
        assert(marked[mark] == lane_byte(PADDING, 0));
        assert(marked[mark + 1] == lane_byte(PADDING, 1));
        assert(marked[mark + 2] == lane_byte(PADDING, 2));
        assert(marked[mark + 3] == lane_byte(PADDING, 3));
    }
}

} // verus!
