//! Payload copies: word by word for the elements of a region's slots, and on
//! the lane grid of the byte rings, four bytes at a time, the last lane filled
//! up with zeroes.

use vstd::prelude::*;

verus! {

/// Bytes in a lane.
pub const LANE: usize = 4;

/// The bytes that `len` payload bytes occupy on the lane grid.
pub open spec fn lanes(len: int) -> int {
    (len + 3) / 4 * 4
}

/// The byte `k` of a lane, least significant first.
pub open spec fn lane_byte(v: u32, k: int) -> u8 {
    if k == 0 {
        (v % 0x100) as u8
    } else if k == 1 {
        (v / 0x100 % 0x100) as u8
    } else if k == 2 {
        (v / 0x1_0000 % 0x100) as u8
    } else {
        (v / 0x100_0000) as u8
    }
}

/// The value of the lane at `off`.
pub open spec fn lane_at(buf: Seq<u8>, off: int) -> int {
    buf[off] + 0x100 * buf[off + 1] + 0x1_0000 * buf[off + 2] + 0x100_0000 * buf[off + 3]
}

/// `buf` with the lane at `off` replaced.
pub open spec fn with_lane(buf: Seq<u8>, off: int, v: u32) -> Seq<u8> {
    buf.update(off, lane_byte(v, 0)).update(off + 1, lane_byte(v, 1)).update(
        off + 2,
        lane_byte(v, 2),
    ).update(off + 3, lane_byte(v, 3))
}

/// `buf` with a payload laid out from `dst` on.
pub open spec fn with_payload(buf: Seq<u8>, dst: int, src: Seq<u8>) -> Seq<u8> {
    Seq::new(
        buf.len(),
        |i: int|
            if dst <= i < dst + src.len() {
                src[i - dst]
            } else if dst <= i < dst + lanes(src.len() as int) {
                0u8
            } else {
                buf[i]
            },
    )
}

/// `region` with a run of words laid out from `dst` on.
pub open spec fn with_words(region: Seq<u64>, dst: int, src: Seq<u64>) -> Seq<u64> {
    Seq::new(
        region.len(),
        |i: int|
            if dst <= i < dst + src.len() {
                src[i - dst]
            } else {
                region[i]
            },
    )
}

/// Copy the words of an element into a slot.
pub fn copy_in_words(src: &[u64], region: &mut [u64], dst: usize)
    requires
        dst + src@.len() <= old(region)@.len(),
    ensures
        final(region)@ == with_words(old(region)@, dst as int, src@),
{
    let len: usize = src.len();
    let end: usize = region.len();
    let mut i: usize = 0;
    while i < len
        invariant
            i <= len,
            len == src@.len(),
            end == region@.len(),
            end == old(region)@.len(),
            dst + len <= end,
            region@ =~= with_words(old(region)@, dst as int, src@.take(i as int)),
        decreases len - i,
    {
        region[dst + i] = src[i];
        i += 1;
    }
    proof {
        assert(src@.take(len as int) =~= src@);
    }
}

/// Copy the words of an element out of a slot.
pub fn copy_out_words(region: &[u64], src: usize, len: usize) -> (r: Vec<u64>)
    requires
        src + len <= region@.len(),
    ensures
        r@ == region@.subrange(src as int, src + len),
{
    let end: usize = region.len();
    let mut out: Vec<u64> = Vec::new();
    let mut i: usize = 0;
    while i < len
        invariant
            i <= len,
            end == region@.len(),
            src + len <= end,
            out@ =~= region@.subrange(src as int, src + i),
        decreases len - i,
    {
        out.push(region[src + i]);
        i += 1;
    }
    out
}

/// Read a lane.
pub fn load_lane(buf: &Vec<u8>, off: usize) -> (r: u32)
    requires
        off + LANE <= buf@.len(),
    ensures
        r == lane_at(buf@, off as int),
{
    proof {
        assert(buf.len() == buf@.len());
    }
    buf[off] as u32 + 0x100 * (buf[off + 1] as u32) + 0x1_0000 * (buf[off + 2] as u32)
        + 0x100_0000 * (buf[off + 3] as u32)
}

/// Write a lane.
pub fn store_lane(buf: &mut Vec<u8>, off: usize, v: u32)
    requires
        off + LANE <= old(buf)@.len(),
    ensures
        final(buf)@ == with_lane(old(buf)@, off as int, v),
        lane_at(final(buf)@, off as int) == v,
{
    proof {
        assert(buf.len() == buf@.len());
    }
    buf[off] = (v % 0x100) as u8;
    buf[off + 1] = (v / 0x100 % 0x100) as u8;
    buf[off + 2] = (v / 0x1_0000 % 0x100) as u8;
    buf[off + 3] = (v / 0x100_0000) as u8;
}

/// Copy a payload into the ring, lane by lane.
pub fn copy_in_lanes(src: &[u8], buf: &mut Vec<u8>, dst: usize)
    requires
        dst + lanes(src@.len() as int) <= old(buf)@.len(),
    ensures
        final(buf)@ == with_payload(old(buf)@, dst as int, src@),
{
    let len: usize = src.len();
    let end: usize = buf.len();
    let mut off: usize = 0;
    while len - off >= LANE
        invariant
            len == src@.len(),
            off <= len,
            off % 4 == 0,
            dst + lanes(src@.len() as int) <= end,
            buf@.len() == end,
            old(buf)@.len() == end,
            forall|i: int|
                0 <= i < buf@.len() ==> #[trigger] buf@[i] == (if dst <= i < dst + off {
                    src@[i - dst]
                } else {
                    old(buf)@[i]
                }),
        decreases len - off,
    {
        buf[dst + off] = src[off];
        buf[dst + off + 1] = src[off + 1];
        buf[dst + off + 2] = src[off + 2];
        buf[dst + off + 3] = src[off + 3];
        off += LANE;
    }
    if off < len {
        buf[dst + off] = src[off];
        buf[dst + off + 1] = if off + 1 < len {
            src[off + 1]
        } else {
            0
        };
        buf[dst + off + 2] = if off + 2 < len {
            src[off + 2]
        } else {
            0
        };
        buf[dst + off + 3] = 0;
    }
    proof {
        assert(buf@ =~= with_payload(old(buf)@, dst as int, src@));
    }
}

/// Copy `len` payload bytes out of the ring, lane by lane.
pub fn copy_out_lanes(buf: &Vec<u8>, src: usize, out: &mut Vec<u8>, len: usize)
    requires
        src + lanes(len as int) <= buf@.len(),
    ensures
        final(out)@ == old(out)@ + buf@.subrange(src as int, src + len),
{
    let end: usize = buf.len();
    let mut off: usize = 0;
    while len - off >= LANE
        invariant
            off <= len,
            src + lanes(len as int) <= end,
            buf@.len() == end,
            out@ == old(out)@ + buf@.subrange(src as int, src + off),
        decreases len - off,
    {
        out.push(buf[src + off]);
        out.push(buf[src + off + 1]);
        out.push(buf[src + off + 2]);
        out.push(buf[src + off + 3]);
        off += LANE;
        proof {
            assert(out@ =~= old(out)@ + buf@.subrange(src as int, src + off));
        }
    }
    while off < len
        invariant
            off <= len,
            src + lanes(len as int) <= end,
            buf@.len() == end,
            out@ == old(out)@ + buf@.subrange(src as int, src + off),
        decreases len - off,
    {
        out.push(buf[src + off]);
        off += 1;
        proof {
            assert(out@ =~= old(out)@ + buf@.subrange(src as int, src + off));
        }
    }
}

/// A payload that was copied in is copied out unchanged.
pub proof fn a_payload_round_trips(buf: Seq<u8>, dst: int, src: Seq<u8>)
    requires
        0 <= dst,
        dst + lanes(src.len() as int) <= buf.len(),
    ensures
        with_payload(buf, dst, src).subrange(dst, dst + src.len()) == src,
{
    assert(with_payload(buf, dst, src).subrange(dst, dst + src.len()) =~= src);
}

} // verus!
