//! The per-slot seqlock of the lossy read paths, and the reader that is built
//! on it.
//!
//! A slot's generation is `2s + 1` while message `s` is being written and
//! `2s + 2` once it is there. The generations of one slot only grow, so a
//! reader that finds the generation it expects before and after its copy has
//! copied that message and nothing else.

use crate::arith::{lemma_distinct_slots, lemma_next_lap, ring_capacity, slot_index, MAX_CURSOR};
use vstd::arithmetic::div_mod::lemma_mod_bound;
use vstd::prelude::*;

verus! {

/// One slot: a generation and a payload.
pub struct Slot<T> {
    pub seq: u64,
    pub data: Option<T>,
}

impl<T: Copy> Copy for Slot<T> {

}

impl<T: Copy> Clone for Slot<T> {
    fn clone(&self) -> (r: Self)
        ensures
            r == *self,
    {
        *self
    }
}

impl<T: Copy> Slot<T> {
    /// A slot that was never written. No reader accepts its generation.
    pub fn new() -> (r: Self)
        ensures
            r == (Slot::<T> { seq: 0, data: None }),
    {
        Slot { seq: 0, data: None }
    }

    /// Announce that message `s` is being written.
    pub fn invalidate(&mut self, s: u64)
        requires
            s < MAX_CURSOR,
        ensures
            *final(self) == (Slot { seq: (2 * s + 1) as u64, ..*old(self) }),
    {
        self.seq = 2 * s + 1;
    }

    /// Store the payload.
    pub fn write_payload(&mut self, value: T)
        ensures
            *final(self) == (Slot { data: Some(value), ..*old(self) }),
    {
        self.data = Some(value);
    }

    /// Copy the payload.
    pub fn read_payload(&self) -> (r: Option<T>)
        ensures
            r == self.data,
    {
        self.data
    }

    /// Publish message `s`.
    pub fn validate(&mut self, s: u64)
        requires
            s < MAX_CURSOR,
        ensures
            *final(self) == (Slot { seq: (2 * s + 2) as u64, ..*old(self) }),
    {
        self.seq = 2 * s + 2;
    }
}

/// What a reader does with what it saw: the generation before the copy, the
/// copy, and the generation after it.
pub open spec fn accepted<T>(expected: u64, v1: u64, copy: Option<T>, v2: u64) -> Option<T> {
    if v1 == expected && v2 == expected {
        copy
    } else {
        None
    }
}

/// Accept a copy only where the generation was the expected one before it and
/// still is after it.
pub fn accept<T>(expected: u64, v1: u64, copy: Option<T>, v2: u64) -> (r: Option<T>)
    ensures
        r == accepted(expected, v1, copy, v2),
{
    if v1 == expected && v2 == v1 {
        copy
    } else {
        None
    }
}

/// The seqlock read: validate, copy, validate again.
pub fn read_valid<T: Copy>(slot: &Slot<T>, expected: u64) -> (r: Option<T>)
    ensures
        r == (if slot.seq == expected {
            slot.data
        } else {
            None
        }),
{
    let v1: u64 = slot.seq;
    if v1 != expected {
        return None;
    }
    let copy = slot.read_payload();
    let v2: u64 = slot.seq;
    accept(expected, v1, copy, v2)
}

/// The byte offset of the payload in a slot: past the generation word, at the
/// payload's alignment.
pub open spec fn payload_offset(align: int) -> int {
    if align > 8 {
        align
    } else {
        8
    }
}

/// The smallest multiple of `a` that is at least `x`.
pub open spec fn aligned_up(x: int, a: int) -> int {
    (x + a - 1) / a * a
}

/// The byte offset of the payload of type `T` in its slot.
pub fn data_offset_of<T>() -> (r: usize)
    ensures
        r == payload_offset(vstd::layout::align_of::<T>() as int),
{
    shm_slot_align(core::mem::align_of::<T>())
}

/// The alignment of a slot whose payload has alignment `align`.
pub fn shm_slot_align(align: usize) -> (r: usize)
    ensures
        r == payload_offset(align as int),
{
    if align > 8 {
        align
    } else {
        8
    }
}

/// The byte stride of a slot for a payload of `size` bytes at alignment
/// `align`; `None` where it does not fit a machine word.
pub fn shm_slot_stride(size: usize, align: usize) -> (r: Option<usize>)
    ensures
        match r {
            Some(stride) => {
                &&& 2 * payload_offset(align as int) + size - 1 <= usize::MAX
                &&& stride == aligned_up(
                    payload_offset(align as int) + size,
                    payload_offset(align as int),
                )
                &&& stride >= payload_offset(align as int) + size
                &&& stride as int % payload_offset(align as int) == 0
            },
            None => 2 * payload_offset(align as int) + size - 1 > usize::MAX,
        },
{
    let a: usize = shm_slot_align(align);
    match a.checked_add(size) {
        None => None,
        Some(end) => match end.checked_add(a - 1) {
            None => None,
            Some(top) => {
                proof {
                    lemma_aligned_up(top as int, a as int);
                }
                Some(top / a * a)
            },
        },
    }
}

/// Rounding down to a multiple takes less than the multiple away.
proof fn lemma_aligned_up(top: int, a: int)
    requires
        0 <= top,
        0 < a,
    ensures
        top - a < top / a * a <= top,
        (top / a * a) % a == 0,
{
    vstd::arithmetic::div_mod::lemma_fundamental_div_mod(top, a);
    lemma_mod_bound(top, a);
    vstd::arithmetic::mul::lemma_mul_is_commutative(a, top / a);
    vstd::arithmetic::div_mod::lemma_mod_multiples_basic(top / a, a);
}

/// A stride has room for the generation and the payload, and is a multiple of
/// the slot's alignment.
pub proof fn lemma_stride(size: int, align: int)
    requires
        0 <= size,
    ensures
        ({
            let a = payload_offset(align);
            let stride = aligned_up(a + size, a);
            &&& a + size <= stride < 2 * a + size
            &&& stride % a == 0
        }),
{
    let a = payload_offset(align);
    lemma_aligned_up(a + size + a - 1, a);
}

/// The payload of a slot starts on a machine word.
pub proof fn a_payload_starts_on_a_word(align: int, word: int)
    requires
        vstd::arithmetic::power2::is_pow2(align),
        word == 4 || word == 8,
    ensures
        payload_offset(align) % word == 0,
{
    reveal_with_fuel(vstd::arithmetic::power2::is_pow2, 5);
    if align > 8 {
        assert(align % 2 == 0 && (align / 2) % 2 == 0 && (align / 4) % 2 == 0);
    }
}

/// Where a lapped reader continues: `slack` slots above the oldest message
/// that the ring can still hold.
pub open spec fn target(tail: int, capacity: int, slack: int) -> int {
    let raised = if tail + slack > u64::MAX {
        u64::MAX as int
    } else {
        tail + slack
    };
    if raised >= capacity {
        raised - capacity
    } else {
        0
    }
}

/// Where a lapped reader continues.
pub fn reposition_target(tail: u64, capacity: u64, slack: u64) -> (r: u64)
    ensures
        r == target(tail as int, capacity as int, slack as int),
{
    tail.saturating_add(slack).saturating_sub(capacity)
}

/// The generation that says that message `s` is in its slot.
pub open spec fn holds<T>(slots: Seq<Slot<T>>, s: int) -> bool {
    slots[s % slots.len() as int].seq == 2 * s + 2
}

/// The message in the slot of sequence `s`.
pub open spec fn message<T>(slots: Seq<Slot<T>>, s: int) -> T {
    slots[s % slots.len() as int].data->0
}

/// Every slot that was ever published has a payload.
pub open spec fn filled<T>(slots: Seq<Slot<T>>) -> bool {
    &&& ring_capacity(slots.len() as int)
    &&& forall|i: int| 0 <= i < slots.len() && (#[trigger] slots[i]).seq > 0 ==> slots[i].data is Some
}

/// The slots after `next` messages: the last lap is there, and nothing else
/// was written.
pub open spec fn laid_out<T>(slots: Seq<Slot<T>>, next: int) -> bool {
    &&& filled(slots)
    &&& forall|s: int|
        0 <= s < next && next - slots.len() <= s ==> #[trigger] holds(slots, s)
    &&& forall|i: int| next <= i < slots.len() ==> (#[trigger] slots[i]).seq == 0
}

/// The slots after message `s` has been written.
pub open spec fn with_message<T>(slots: Seq<Slot<T>>, s: int, value: T) -> Seq<Slot<T>> {
    slots.update(
        s % slots.len() as int,
        Slot { seq: (2 * s + 2) as u64, data: Some(value) },
    )
}

/// A vector of slots that were never written.
pub fn fresh_slots<T: Copy>(capacity: usize) -> (r: Vec<Slot<T>>)
    requires
        ring_capacity(capacity as int),
    ensures
        r@.len() == capacity,
        laid_out(r@, 0),
{
    let mut slots: Vec<Slot<T>> = Vec::new();
    let mut i: usize = 0;
    while i < capacity
        invariant
            i <= capacity,
            slots@.len() == i,
            forall|j: int| 0 <= j < i ==> (#[trigger] slots@[j]).seq == 0,
        decreases capacity - i,
    {
        slots.push(Slot::new());
        i += 1;
    }
    slots
}

/// Write message `s` into its slot: announce it, store the payload, publish
/// it.
pub fn write_slot<T: Copy>(slots: &mut Vec<Slot<T>>, mask: u64, s: u64, value: T)
    requires
        laid_out(old(slots)@, s as int),
        mask + 1 == old(slots)@.len(),
        s < MAX_CURSOR,
    ensures
        final(slots)@ == with_message(old(slots)@, s as int, value),
        laid_out(final(slots)@, s + 1),
{
    let index: usize = slot_index(s, mask);
    let mut slot = slots[index];
    slot.invalidate(s);
    slot.write_payload(value);
    slot.validate(s);
    slots[index] = slot;
    proof {
        assert(slots@ =~= with_message(old(slots)@, s as int, value));
        lemma_written(old(slots)@, s as int, value);
    }
}

/// The slots after `next` messages, but for the slot that message `next` goes
/// to: a producer may have died while it wrote there.
pub open spec fn laid_out_apart<T>(slots: Seq<Slot<T>>, next: int) -> bool {
    let cap = slots.len() as int;
    &&& filled(slots)
    &&& forall|s: int| 0 <= s < next && next - cap < s ==> #[trigger] holds(slots, s)
    &&& forall|i: int| next < i < cap ==> (#[trigger] slots[i]).seq == 0
}

/// Writing the next message leaves the last lap in place, and makes good what a
/// predecessor left half written.
pub proof fn lemma_written<T>(slots: Seq<Slot<T>>, s: int, value: T)
    requires
        laid_out_apart(slots, s),
        0 <= s < MAX_CURSOR,
    ensures
        laid_out(with_message(slots, s, value), s + 1),
{
    let cap = slots.len() as int;
    let after = with_message(slots, s, value);
    lemma_mod_bound(s, cap);
    assert forall|t: int| 0 <= t < s + 1 && s + 1 - cap <= t implies #[trigger] holds(after, t) by {
        lemma_mod_bound(t, cap);
        if t < s {
            lemma_distinct_slots(t, s, cap);
            assert(holds(slots, t));
        }
    }
    assert forall|i: int| s + 1 <= i < cap implies (#[trigger] after[i]).seq == 0 by {
        vstd::arithmetic::div_mod::lemma_small_mod(s as nat, cap as nat);
        assert(slots[i].seq == 0);
    }
}

/// A message that was written stays in its slot, or the slot carries another
/// generation: no write changes what is read under a message's generation.
pub proof fn a_message_is_kept_or_gone<T>(slots: Seq<Slot<T>>, next: int, value: T, s: int)
    requires
        laid_out(slots, next),
        0 <= s < next < MAX_CURSOR,
        holds(with_message(slots, next, value), s),
    ensures
        holds(slots, s),
        message(with_message(slots, next, value), s) == message(slots, s),
{
    lemma_mod_bound(s, slots.len() as int);
    lemma_mod_bound(next, slots.len() as int);
}

/// A message is readable exactly until the producer is more than one lap
/// ahead.
pub proof fn a_lap_overwrites<T>(slots: Seq<Slot<T>>, next: int, s: int)
    requires
        laid_out(slots, next),
        0 <= s < next <= MAX_CURSOR,
    ensures
        holds(slots, s) == (next - s <= slots.len()),
{
    let cap = slots.len() as int;
    lemma_mod_bound(s, cap);
    if next - s > cap {
        lemma_newer_occupant(slots, next, s);
    }
}

proof fn lemma_newer_occupant<T>(slots: Seq<Slot<T>>, next: int, s: int)
    requires
        laid_out(slots, next),
        0 <= s,
        next - s > slots.len(),
    ensures
        slots[s % slots.len() as int].seq > 2 * s + 2,
    decreases next - s,
{
    let cap = slots.len() as int;
    lemma_next_lap(s + cap, cap);
    if next - (s + cap) > cap {
        lemma_newer_occupant(slots, next, s + cap);
    } else {
        assert(holds(slots, s + cap));
    }
}

/// What a read came to.
pub enum SlotRead<T> {
    /// The message, and the reader is one further.
    Message(T),
    /// The message was overwritten; the reader skipped `missed` messages.
    Lapped { missed: u64 },
}

/// The private side of a lossy reader.
#[derive(Clone, Copy)]
pub struct SlotReader {
    pub mask: u64,
    pub slack: u64,
    pub pos: u64,
    pub tail_cache: u64,
}

impl SlotReader {
    /// Slots in the ring.
    pub open spec fn cap(&self) -> int {
        self.mask + 1
    }

    /// The reader is not past what was published.
    pub open spec fn inv(&self, tail: u64) -> bool {
        &&& ring_capacity(self.cap())
        &&& self.slack < self.cap()
        &&& self.pos <= tail <= MAX_CURSOR
        &&& self.tail_cache <= tail
    }

    /// The copy of the tail after a look for a message.
    pub open spec fn looked_up(&self, tail: u64) -> u64 {
        if self.tail_cache > self.pos {
            self.tail_cache
        } else {
            tail
        }
    }

    /// Where the reader continues after a lap.
    pub open spec fn resumed(&self, tail: u64) -> u64 {
        let t = target(tail as int, self.cap(), self.slack as int);
        if t > self.pos {
            t as u64
        } else {
            self.pos
        }
    }

    /// A reader that sees what is published after `tail`.
    pub fn join(mask: u64, slack: u64, tail: u64) -> (r: Self)
        ensures
            r == (SlotReader { mask, slack, pos: tail, tail_cache: tail }),
    {
        SlotReader { mask, slack, pos: tail, tail_cache: tail }
    }

    /// Whether the copy of the tail says that a message is there.
    pub fn available(&self) -> (r: bool)
        ensures
            r == (self.tail_cache > self.pos),
    {
        self.tail_cache > self.pos
    }

    /// Re-read the tail.
    pub fn refresh(&mut self, tail: u64) -> (r: u64)
        ensures
            r == tail,
            *final(self) == (SlotReader { tail_cache: tail, ..*old(self) }),
    {
        self.tail_cache = tail;
        self.tail_cache
    }

    /// Whether a message was published past the reader. Re-reads the tail
    /// only where the copy says no.
    pub fn has_item(&mut self, tail: u64) -> (r: bool)
        ensures
            r == (old(self).tail_cache > old(self).pos || tail > old(self).pos),
            *final(self) == (SlotReader { tail_cache: old(self).looked_up(tail), ..*old(self) }),
    {
        if !self.available() {
            self.refresh(tail);
            return self.available();
        }
        true
    }

    /// Whether the ring is closed and a fresh look finds nothing.
    pub fn drained(&mut self, tail: u64, closed: bool) -> (r: bool)
        ensures
            r == (closed && tail <= old(self).pos),
            *final(self) == (SlotReader {
                tail_cache: if closed {
                    tail
                } else {
                    old(self).tail_cache
                },
                ..*old(self)
            }),
    {
        if closed {
            self.refresh(tail);
            if self.tail_cache <= self.pos {
                return true;
            }
        }
        false
    }

    /// Read the message at the reader's position, or skip ahead where it was
    /// overwritten.
    pub fn read_slot<T: Copy>(&mut self, slots: &Vec<Slot<T>>, tail: u64) -> (r: SlotRead<T>)
        requires
            old(self).inv(tail),
            old(self).cap() == slots@.len(),
            filled(slots@),
            old(self).pos < tail,
        ensures
            match r {
                SlotRead::Message(v) => {
                    &&& holds(slots@, old(self).pos as int)
                    &&& v == message(slots@, old(self).pos as int)
                    &&& *final(self) == (SlotReader {
                        pos: (old(self).pos + 1) as u64,
                        ..*old(self)
                    })
                },
                SlotRead::Lapped { missed } => {
                    &&& !holds(slots@, old(self).pos as int)
                    &&& *final(self) == (SlotReader {
                        pos: old(self).resumed(tail),
                        tail_cache: tail,
                        ..*old(self)
                    })
                    &&& old(self).pos + missed == final(self).pos
                },
            },
            final(self).inv(tail),
    {
        let s: u64 = self.pos;
        let index: usize = slot_index(s, self.mask);
        match read_valid(&slots[index], 2 * s + 2) {
            Some(v) => {
                self.pos = s + 1;
                SlotRead::Message(v)
            },
            None => {
                proof {
                    assert(!holds(slots@, s as int));
                }
                let missed: u64 = self.reposition(tail);
                SlotRead::Lapped { missed }
            },
        }
    }

    /// Skip to where the next read has `slack` slots of headroom.
    pub fn reposition(&mut self, tail: u64) -> (missed: u64)
        requires
            old(self).inv(tail),
        ensures
            *final(self) == (SlotReader {
                pos: old(self).resumed(tail),
                tail_cache: tail,
                ..*old(self)
            }),
            old(self).pos + missed == final(self).pos,
            final(self).inv(tail),
    {
        self.refresh(tail);
        let target: u64 = reposition_target(tail, self.mask + 1, self.slack);
        let new_pos: u64 = if target > self.pos {
            target
        } else {
            self.pos
        };
        let missed: u64 = new_pos - self.pos;
        self.pos = new_pos;
        missed
    }

    /// What skipping everything up to `tail` comes to.
    pub open spec fn skips(&self, tail: u64, after: &Self, skipped: u64) -> bool {
        &&& skipped == (if tail > self.pos {
            tail - self.pos
        } else {
            0
        })
        &&& *after == (SlotReader {
            pos: if tail > self.pos {
                tail
            } else {
                self.pos
            },
            tail_cache: tail,
            ..*self
        })
    }

    /// Skip everything published so far; the number of messages skipped.
    pub fn skip_to_latest(&mut self, tail: u64) -> (skipped: u64)
        ensures
            old(self).skips(tail, final(self), skipped),
    {
        self.refresh(tail);
        let skipped: u64 = tail.saturating_sub(self.pos);
        self.pos = if tail > self.pos {
            tail
        } else {
            self.pos
        };
        skipped
    }

    /// How many published messages the reader has not seen.
    pub fn lag(&self, tail: u64) -> (r: u64)
        ensures
            r == (if tail > self.pos {
                tail - self.pos
            } else {
                0
            }),
    {
        tail.saturating_sub(self.pos)
    }
}

/// A reader that was lapped continues within the ring, with `slack` messages
/// of headroom before the producer reaches it again, and it has moved.
pub proof fn a_lapped_reader_catches_up<T>(slots: Seq<Slot<T>>, reader: SlotReader, tail: u64)
    requires
        laid_out(slots, tail as int),
        reader.inv(tail),
        reader.cap() == slots.len(),
        reader.pos < tail,
        !holds(slots, reader.pos as int),
    ensures
        reader.pos < reader.resumed(tail) <= tail,
        tail + reader.slack - reader.resumed(tail) <= slots.len(),
        reader.resumed(tail) < tail ==> holds(slots, reader.resumed(tail) as int),
{
    a_lap_overwrites(slots, tail as int, reader.pos as int);
    if reader.resumed(tail) < tail {
        a_lap_overwrites(slots, tail as int, reader.resumed(tail) as int);
    }
}

/// A slot carries the number of its message: twice the number, plus two, while
/// the message is there. Writing a message takes the place of the one a ring
/// before it and of no other.
pub proof fn a_slot_is_stamped_by_its_message<T>(
    slots: Seq<Slot<T>>,
    s: int,
    value: T,
    t: int,
)
    requires
        slots.len() > 0,
        0 <= s < MAX_CURSOR,
        0 <= t,
    ensures
        ({
            let after = with_message(slots, s, value);
            let i = s % slots.len() as int;
            &&& after.len() == slots.len()
            &&& after[i].seq == 2 * s + 2
            &&& after[i].data == Some(value)
            &&& holds(after, s)
            &&& message(after, s) == value
            &&& t % slots.len() as int == i && t != s ==> !holds(after, t)
            &&& t % slots.len() as int != i ==> after[t % slots.len() as int] == slots[t
                % slots.len() as int]
        }),
{
    vstd::arithmetic::div_mod::lemma_mod_bound(s, slots.len() as int);
    vstd::arithmetic::div_mod::lemma_mod_bound(t, slots.len() as int);
}

/// The element of a slot starts at the first place behind the stamp that its
/// alignment allows.
pub proof fn a_payload_is_aligned(align: int)
    requires
        vstd::arithmetic::power2::is_pow2(align),
        align >= 1,
    ensures
        payload_offset(align) >= 8,
        payload_offset(align) % 8 == 0,
        payload_offset(align) % align == 0,
        payload_offset(align) == 8 || payload_offset(align) == align,
        align <= 8 ==> payload_offset(align) == 8,
{
    reveal_with_fuel(vstd::arithmetic::power2::is_pow2, 5);
    if align > 8 {
        crate::arith::lemma_eighths(align);
        vstd::arithmetic::div_mod::lemma_mod_self_0(align);
    } else {
        assert(align == 1 || align == 2 || align == 4 || align == 8);
        assert(8int % 1 == 0 && 8int % 2 == 0 && 8int % 4 == 0 && 8int % 8 == 0);
    }
}

} // verus!
