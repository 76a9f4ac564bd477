//! The bytes of a ring's buffer in a region, and copies on their lane grid.
//!
//! The buffer starts at word `base` and holds `capacity` bytes, eight to a
//! word, the least significant first. A lane is half a word.

use crate::atomic_copy::{lane_at, lane_byte, lanes, with_lane, with_payload};
use crate::frames::{
    byte_capacity, lemma_aligned_offset, lemma_frame_fits, lemma_records_fit, max_len, pad_for,
    with_frame, HEADER, PADDING,
};
use vstd::prelude::*;

verus! {

/// The byte `k` of a word, least significant first.
#[verifier::opaque]
pub open spec fn word_byte(w: u64, k: int) -> u8 {
    if k == 0 {
        (w % 0x100) as u8
    } else if k == 1 {
        (w / 0x100 % 0x100) as u8
    } else if k == 2 {
        (w / 0x1_0000 % 0x100) as u8
    } else if k == 3 {
        (w / 0x100_0000 % 0x100) as u8
    } else if k == 4 {
        (w / 0x1_0000_0000 % 0x100) as u8
    } else if k == 5 {
        (w / 0x100_0000_0000 % 0x100) as u8
    } else if k == 6 {
        (w / 0x1_0000_0000_0000 % 0x100) as u8
    } else {
        (w / 0x100_0000_0000_0000) as u8
    }
}

/// The bytes of a buffer.
pub open spec fn bytes_of(region: Seq<u64>, base: int, capacity: int) -> Seq<u8> {
    Seq::new(capacity as nat, |i: int| word_byte(region[base + i / 8], i % 8))
}

/// A buffer of `capacity` bytes lies in the region.
pub open spec fn buffer_fits(region: Seq<u64>, base: int, capacity: int) -> bool {
    &&& 0 <= base
    &&& byte_capacity(capacity)
    &&& capacity % 8 == 0
    &&& base + capacity / 8 <= region.len()
}

/// Two regions differ in the buffer alone.
pub open spec fn same_outside(a: Seq<u64>, b: Seq<u64>, base: int, capacity: int) -> bool {
    &&& a.len() == b.len()
    &&& forall|i: int|
        0 <= i < a.len() && !(base <= i < base + capacity / 8) ==> #[trigger] a[i] == b[i]
}

/// A word is its eight bytes.
proof fn lemma_halves(w: u64)
    ensures
        w % 0x1_0000_0000 == word_byte(w, 0) + 0x100 * word_byte(w, 1) + 0x1_0000 * word_byte(w, 2)
            + 0x100_0000 * word_byte(w, 3),
        w / 0x1_0000_0000 == word_byte(w, 4) + 0x100 * word_byte(w, 5) + 0x1_0000 * word_byte(w, 6)
            + 0x100_0000 * word_byte(w, 7),
{
    reveal(word_byte);
    let low: u64 = w % 0x1_0000_0000;
    let high: u64 = w / 0x1_0000_0000;
    assert(low == w % 0x100 + 0x100 * (w / 0x100 % 0x100) + 0x1_0000 * (w / 0x1_0000 % 0x100)
        + 0x100_0000 * (w / 0x100_0000 % 0x100)) by (bit_vector)
        requires
            low == w % 0x1_0000_0000u64,
    ;
    assert(high == w / 0x1_0000_0000 % 0x100 + 0x100 * (w / 0x100_0000_0000 % 0x100) + 0x1_0000 * (w
        / 0x1_0000_0000_0000 % 0x100) + 0x100_0000 * (w / 0x100_0000_0000_0000)) by (bit_vector)
        requires
            high == w / 0x1_0000_0000u64,
    ;
}

/// A word made of two lanes.
proof fn lemma_from_halves(low: u32, high: u32, w: u64)
    requires
        w == low + 0x1_0000_0000 * high,
    ensures
        word_byte(w, 0) == lane_byte(low, 0),
        word_byte(w, 1) == lane_byte(low, 1),
        word_byte(w, 2) == lane_byte(low, 2),
        word_byte(w, 3) == lane_byte(low, 3),
        word_byte(w, 4) == lane_byte(high, 0),
        word_byte(w, 5) == lane_byte(high, 1),
        word_byte(w, 6) == lane_byte(high, 2),
        word_byte(w, 7) == lane_byte(high, 3),
{
    reveal(word_byte);
    assert(w % 0x100 == low % 0x100 && w / 0x100 % 0x100 == low / 0x100 % 0x100 && w / 0x1_0000
        % 0x100 == low / 0x1_0000 % 0x100 && w / 0x100_0000 % 0x100 == low / 0x100_0000)
        by (bit_vector)
        requires
            w == low + 0x1_0000_0000 * high,
    ;
    assert(w / 0x1_0000_0000 % 0x100 == high % 0x100 && w / 0x100_0000_0000 % 0x100 == high / 0x100
        % 0x100 && w / 0x1_0000_0000_0000 % 0x100 == high / 0x1_0000 % 0x100 && w
        / 0x100_0000_0000_0000 == high / 0x100_0000) by (bit_vector)
        requires
            w == low + 0x1_0000_0000 * high,
    ;
}

/// Read a lane.
pub fn load_lane(region: &[u64], base: usize, capacity: usize, off: usize) -> (r: u32)
    requires
        buffer_fits(region@, base as int, capacity as int),
        off % 4 == 0,
        off + 4 <= capacity,
    ensures
        r == lane_at(bytes_of(region@, base as int, capacity as int), off as int),
{
    let len: usize = region.len();
    let w: u64 = region[base + off / 8];
    proof {
        lemma_halves(w);
    }
    if off % 8 == 0 {
        (w % 0x1_0000_0000) as u32
    } else {
        (w / 0x1_0000_0000) as u32
    }
}

/// Write a lane.
pub fn store_lane(region: &mut [u64], base: usize, capacity: usize, off: usize, v: u32)
    requires
        buffer_fits(old(region)@, base as int, capacity as int),
        off % 4 == 0,
        off + 4 <= capacity,
    ensures
        bytes_of(final(region)@, base as int, capacity as int) == with_lane(
            bytes_of(old(region)@, base as int, capacity as int),
            off as int,
            v,
        ),
        same_outside(old(region)@, final(region)@, base as int, capacity as int),
{
    let len: usize = region.len();
    let at: usize = base + off / 8;
    let w: u64 = region[at];
    let low: u32 = (w % 0x1_0000_0000) as u32;
    let high: u32 = (w / 0x1_0000_0000) as u32;
    let (new_low, new_high): (u32, u32) = if off % 8 == 0 {
        (v, high)
    } else {
        (low, v)
    };
    let stored: u64 = new_low as u64 + 0x1_0000_0000u64 * (new_high as u64);
    region[at] = stored;
    proof {
        lemma_from_halves(low, high, w);
        lemma_from_halves(new_low, new_high, stored);
        lemma_lane_stored(old(region)@, region@, base as int, capacity as int, off as int, v);
    }
}

/// Replacing half a word replaces a lane.
proof fn lemma_lane_stored(
    before: Seq<u64>,
    after: Seq<u64>,
    base: int,
    capacity: int,
    off: int,
    v: u32,
)
    requires
        buffer_fits(before, base, capacity),
        0 <= off,
        off % 4 == 0,
        off + 4 <= capacity,
        after == before.update(base + off / 8, after[base + off / 8]),
        forall|k: int|
            off % 8 <= k < off % 8 + 4 ==> #[trigger] word_byte(after[base + off / 8], k)
                == lane_byte(v, k - off % 8),
        forall|k: int|
            0 <= k < 8 && !(off % 8 <= k < off % 8 + 4) ==> #[trigger] word_byte(
                after[base + off / 8],
                k,
            ) == word_byte(before[base + off / 8], k),
    ensures
        bytes_of(after, base, capacity) == with_lane(bytes_of(before, base, capacity), off, v),
        same_outside(before, after, base, capacity),
{
    let a = bytes_of(after, base, capacity);
    let e = with_lane(bytes_of(before, base, capacity), off, v);
    let at = base + off / 8;
    assert forall|i: int| 0 <= i < capacity implies a[i] == e[i] by {
        if i / 8 == off / 8 {
            assert(a[i] == word_byte(after[at], i % 8));
            if off <= i < off + 4 {
                assert(i % 8 - off % 8 == i - off);
                assert(e[i] == lane_byte(v, i - off));
            } else {
                assert(e[i] == word_byte(before[at], i % 8));
            }
        } else {
            assert(after[base + i / 8] == before[base + i / 8]);
        }
    }
    assert(a =~= e);
}

/// A lane made of four bytes.
fn lane_of(b0: u8, b1: u8, b2: u8, b3: u8) -> (r: u32)
    ensures
        lane_byte(r, 0) == b0,
        lane_byte(r, 1) == b1,
        lane_byte(r, 2) == b2,
        lane_byte(r, 3) == b3,
{
    let r: u32 = b0 as u32 + 0x100 * (b1 as u32) + 0x1_0000 * (b2 as u32) + 0x100_0000 * (
    b3 as u32);
    proof {
        lemma_lane_bytes(r, b0, b1, b2, b3);
    }
    r
}

/// Copy a payload into the buffer, lane by lane.
pub fn copy_in_lanes(src: &[u8], region: &mut [u64], base: usize, capacity: usize, dst: usize)
    requires
        buffer_fits(old(region)@, base as int, capacity as int),
        dst % 4 == 0,
        dst + lanes(src@.len() as int) <= capacity,
    ensures
        bytes_of(final(region)@, base as int, capacity as int) == with_payload(
            bytes_of(old(region)@, base as int, capacity as int),
            dst as int,
            src@,
        ),
        same_outside(old(region)@, final(region)@, base as int, capacity as int),
{
    let len: usize = src.len();
    let ghost before = bytes_of(region@, base as int, capacity as int);
    let mut off: usize = 0;
    while len - off >= 4
        invariant
            len == src@.len(),
            off <= len,
            off % 4 == 0,
            dst % 4 == 0,
            buffer_fits(region@, base as int, capacity as int),
            dst + lanes(src@.len() as int) <= capacity,
            before == bytes_of(old(region)@, base as int, capacity as int),
            same_outside(old(region)@, region@, base as int, capacity as int),
            forall|i: int|
                0 <= i < capacity ==> #[trigger] bytes_of(
                    region@,
                    base as int,
                    capacity as int,
                )[i] == (if dst <= i < dst + off {
                    src@[i - dst]
                } else {
                    before[i]
                }),
        decreases len - off,
    {
        let v: u32 = lane_of(src[off], src[off + 1], src[off + 2], src[off + 3]);
        store_lane(region, base, capacity, dst + off, v);
        off += 4;
    }
    if off < len {
        let b1: u8 = if off + 1 < len {
            src[off + 1]
        } else {
            0
        };
        let b2: u8 = if off + 2 < len {
            src[off + 2]
        } else {
            0
        };
        let v: u32 = lane_of(src[off], b1, b2, 0);
        store_lane(region, base, capacity, dst + off, v);
    }
    proof {
        assert(bytes_of(region@, base as int, capacity as int) =~= with_payload(
            before,
            dst as int,
            src@,
        ));
    }
}

/// Copy `len` payload bytes out of the buffer, lane by lane.
pub fn copy_out_lanes(
    region: &[u64],
    base: usize,
    capacity: usize,
    src: usize,
    out: &mut Vec<u8>,
    len: usize,
)
    requires
        buffer_fits(region@, base as int, capacity as int),
        src % 4 == 0,
        src + lanes(len as int) <= capacity,
    ensures
        final(out)@ == old(out)@ + bytes_of(region@, base as int, capacity as int).subrange(
            src as int,
            src + len,
        ),
{
    let ghost bytes = bytes_of(region@, base as int, capacity as int);
    let mut off: usize = 0;
    while off < len
        invariant
            off <= len,
            off % 4 == 0 || off == len,
            src % 4 == 0,
            buffer_fits(region@, base as int, capacity as int),
            src + lanes(len as int) <= capacity,
            bytes == bytes_of(region@, base as int, capacity as int),
            out@ == old(out)@ + bytes.subrange(src as int, src + off),
        decreases len - off,
    {
        let v: u32 = load_lane(region, base, capacity, src + off);
        proof {
            assert(v == lane_at(bytes, src + off));
            lemma_lane_bytes(
                v,
                bytes[src + off],
                bytes[src + off + 1],
                bytes[src + off + 2],
                bytes[src + off + 3],
            );
        }
        out.push((v % 0x100) as u8);
        off += 1;
        if off < len {
            out.push((v / 0x100 % 0x100) as u8);
            off += 1;
        }
        if off < len {
            out.push((v / 0x1_0000 % 0x100) as u8);
            off += 1;
        }
        if off < len {
            out.push((v / 0x100_0000) as u8);
            off += 1;
        }
        proof {
            assert(out@ =~= old(out)@ + bytes.subrange(src as int, src + off));
        }
    }
}

/// The bytes of a lane are the bytes it is made of.
proof fn lemma_lane_bytes(v: u32, b0: u8, b1: u8, b2: u8, b3: u8)
    requires
        v == b0 + 0x100 * b1 + 0x1_0000 * b2 + 0x100_0000 * b3,
    ensures
        (v % 0x100) as u8 == b0,
        (v / 0x100 % 0x100) as u8 == b1,
        (v / 0x1_0000 % 0x100) as u8 == b2,
        (v / 0x100_0000) as u8 == b3,
{
    assert(v % 0x100 == b0 && v / 0x100 % 0x100 == b1 && v / 0x1_0000 % 0x100 == b2 && v
        / 0x100_0000 == b3) by (bit_vector)
        requires
            v == b0 + 0x100 * b1 + 0x1_0000 * b2 + 0x100_0000 * b3,
    ;
}

/// Write the frame of a message at `next`: the padding marker where one is
/// needed, the length, and the message.
pub fn write_frame(region: &mut [u64], base: usize, mask: u64, next: u64, pad: u64, msg: &[u8])
    requires
        buffer_fits(old(region)@, base as int, mask + 1),
        msg@.len() <= max_len(mask + 1),
        next % 8 == 0,
        next + 2 * (mask + 1) <= u64::MAX,
        pad == pad_for(next as int, msg@.len() as int, mask + 1),
    ensures
        bytes_of(final(region)@, base as int, mask + 1) == with_frame(
            bytes_of(old(region)@, base as int, mask + 1),
            next as int,
            msg@,
        ),
        same_outside(old(region)@, final(region)@, base as int, mask + 1),
{
    let len: usize = msg.len();
    let capacity: usize = (mask + 1) as usize;
    let off: usize = crate::arith::slot_index(next, mask);
    proof {
        reveal(with_frame);
        lemma_records_fit(mask + 1, len as int);
        lemma_frame_fits(next as int, len as int, mask + 1);
        lemma_aligned_offset(next as int, mask + 1);
        lemma_aligned_offset(next + pad, mask + 1);
    }
    let rec_off: usize = crate::arith::slot_index(next + pad, mask);
    if pad > 0 {
        store_lane(region, base, capacity, off, PADDING);
    }
    store_lane(region, base, capacity, rec_off, len as u32);
    copy_in_lanes(msg, region, base, capacity, rec_off + HEADER);
}

/// A byte of a word is what a shift and a mask leave.
proof fn lemma_shifted(w: u64, k: u64)
    requires
        k < 8,
    ensures
        word_byte(w, k as int) == (w >> (8 * k) as u64) & 0xff,
{
    reveal(word_byte);
    assert(w % 0x100 == (w >> 0u64) & 0xff && w / 0x100 % 0x100 == (w >> 8u64) & 0xff && w
        / 0x1_0000 % 0x100 == (w >> 16u64) & 0xff && w / 0x100_0000 % 0x100 == (w >> 24u64) & 0xff)
        by (bit_vector);
    assert(w / 0x1_0000_0000 % 0x100 == (w >> 32u64) & 0xff && w / 0x100_0000_0000 % 0x100 == (w
        >> 40u64) & 0xff && w / 0x1_0000_0000_0000 % 0x100 == (w >> 48u64) & 0xff && w
        / 0x100_0000_0000_0000 == (w >> 56u64) & 0xff) by (bit_vector);
}

/// Replacing a byte of a word leaves the others alone.
proof fn lemma_byte_replaced(w: u64, k: u64, b: u8, j: u64, stored: u64)
    requires
        k < 8,
        j < 8,
        stored == (w & !(0xffu64 << (8 * k) as u64)) | ((b as u64) << (8 * k) as u64),
    ensures
        word_byte(stored, j as int) == (if j == k {
            b
        } else {
            word_byte(w, j as int)
        }),
{
    lemma_shifted(w, j);
    lemma_shifted(stored, j);
    let s: u64 = (8 * k) as u64;
    let t: u64 = (8 * j) as u64;
    let v: u64 = b as u64;
    assert(((w & !(0xffu64 << s)) | (v << s)) >> t & 0xff == if s == t {
        v
    } else {
        (w >> t) & 0xff
    }) by (bit_vector)
        requires
            v <= 0xff,
            s <= 56,
            t <= 56,
            s % 8 == 0,
            t % 8 == 0,
    ;
}

/// Read the byte at `off` of a buffer.
pub fn load_byte(region: &[u64], base: usize, off: usize) -> (r: u8)
    requires
        base + off / 8 < region@.len(),
    ensures
        r == word_byte(region@[base + off as int / 8], off as int % 8),
{
    let len: usize = region.len();
    let k: u64 = (off % 8) as u64;
    let w: u64 = region[base + off / 8];
    proof {
        lemma_shifted(w, k);
    }
    let s: u64 = 8 * k;
    let r: u64 = (w >> s) & 0xff;
    proof {
        assert((w >> s) & 0xff <= 0xff) by (bit_vector);
    }
    r as u8
}

/// Write the byte at `off` of a buffer.
pub fn store_byte(region: &mut [u64], base: usize, off: usize, b: u8)
    requires
        base + off / 8 < old(region)@.len(),
    ensures
        final(region)@ == old(region)@.update(
            base + off as int / 8,
            final(region)@[base + off as int / 8],
        ),
        forall|j: int|
            0 <= j < 8 ==> #[trigger] word_byte(final(region)@[base + off as int / 8], j) == (if j
                == off as int % 8 {
                b
            } else {
                word_byte(old(region)@[base + off as int / 8], j)
            }),
{
    let len: usize = region.len();
    let at: usize = base + off / 8;
    let w: u64 = region[at];
    let k: u64 = (off % 8) as u64;
    let s: u64 = 8 * k;
    let stored: u64 = (w & !(0xffu64 << s)) | ((b as u64) << s);
    region[at] = stored;
    proof {
        assert forall|j: int| 0 <= j < 8 implies #[trigger] word_byte(stored, j) == (if j
            == off as int % 8 {
            b
        } else {
            word_byte(w, j)
        }) by {
            lemma_byte_replaced(w, k, b, j as u64, stored);
        }
    }
}

} // verus!
