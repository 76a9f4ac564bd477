//! Messages in the slots of a region: the lossy ring of elements over shared
//! memory.
//!
//! An element is a run of words. A slot is a generation and, at the offset that
//! the element's alignment asks for, the words of an element.

use crate::arith::{ring_capacity, slot_index, MAX_CURSOR};
use crate::atomic_copy::{copy_in_words, copy_out_words, with_words};
use crate::broadcast::{clamped, max_tail_batch, tail_batch_in_force, PopError, Producer};
use crate::create::lossy_region;
use crate::region::{
    layout_len, read_u64, store_u64, word, words_for, ShmError, OFF_CLOSED, OFF_WRITE_CURSOR,
};
use crate::seqlock::{
    accept, holds, laid_out, laid_out_apart, lemma_written, message, payload_offset,
    shm_slot_align, with_message, Slot, SlotReader,
};
use crate::shm::{check_slot_type, slot_fault, stride_of, ElemType};
use vstd::arithmetic::power2::is_pow2;
use vstd::prelude::*;

verus! {

/// Where the slots of a ring are, in words.
#[derive(Clone, Copy)]
pub struct SlotGeometry {
    /// Where the first slot starts.
    pub base: usize,
    /// From one slot to the next.
    pub stride: usize,
    /// Where the element starts in its slot.
    pub payload: usize,
    /// Words of an element.
    pub words: usize,
    /// The number of slots, less one.
    pub mask: u64,
}

/// The slots of a ring of elements whose buffer starts at a byte offset.
pub open spec fn geometry(elem: ElemType, capacity: usize, buffer_offset: usize) -> SlotGeometry {
    SlotGeometry {
        base: buffer_offset / 8,
        stride: (stride_of(elem) / 8) as usize,
        payload: (payload_offset(elem.align as int) / 8) as usize,
        words: ((elem.size + 7) / 8) as usize,
        mask: (capacity - 1) as u64,
    }
}

/// A slot of a type that a slot can hold is a whole number of words, and the
/// element lies in it behind the generation.
pub proof fn lemma_geometry(elem: ElemType)
    requires
        slot_fault(elem) is None,
        is_pow2(elem.align as int),
    ensures
        stride_of(elem) % 8 == 0,
        stride_of(elem) <= usize::MAX,
        payload_offset(elem.align as int) % 8 == 0,
        8 * ((elem.size + 7) / 8) + payload_offset(elem.align as int) <= stride_of(elem),
{
    let a = payload_offset(elem.align as int);
    crate::seqlock::a_payload_starts_on_a_word(elem.align as int, 8);
    crate::seqlock::lemma_stride(elem.size as int, elem.align as int);
    let stride = stride_of(elem);
    assert(stride % 8 == 0) by {
        vstd::arithmetic::div_mod::lemma_fundamental_div_mod(stride, a);
        vstd::arithmetic::div_mod::lemma_fundamental_div_mod(a, 8);
        assert(stride == 8 * ((a / 8) * (stride / a))) by (nonlinear_arith)
            requires
                stride == a * (stride / a),
                a == 8 * (a / 8),
        ;
        vstd::arithmetic::div_mod::lemma_mod_multiples_basic((a / 8) * (stride / a), 8);
    }
}

/// The slots of a ring of elements whose buffer starts at a byte offset.
pub fn slot_geometry(elem: ElemType, capacity: usize, buffer_offset: usize) -> (r: Result<
    SlotGeometry,
    ShmError,
>)
    requires
        capacity > 0,
    ensures
        match r {
            Ok(g) => slot_fault(elem) is None && g == geometry(elem, capacity, buffer_offset),
            Err(e) => slot_fault(elem) == Some(e),
        },
{
    match check_slot_type(elem) {
        Err(e) => Err(e),
        Ok(stride) => Ok(
            SlotGeometry {
                base: buffer_offset / 8,
                stride: stride / 8,
                payload: shm_slot_align(elem.align) / 8,
                words: elem.size / 8 + (if elem.size % 8 == 0 {
                    0
                } else {
                    1
                }),
                mask: (capacity - 1) as u64,
            },
        ),
    }
}

/// The region of a ring of elements, fresh or attached to, has room for its
/// slots.
pub proof fn a_sized_region_holds_its_slots(
    region: Seq<u64>,
    elem: ElemType,
    capacity: usize,
    buffer_offset: usize,
)
    requires
        slot_fault(elem) is None,
        is_pow2(elem.align as int),
        ring_capacity(capacity as int),
        buffer_offset >= 384,
        buffer_offset % 8 == 0,
        words_for(layout_len(capacity as int, stride_of(elem), buffer_offset as int, 0))
            <= region.len(),
    ensures
        geometry(elem, capacity, buffer_offset).fits(region),
{
    lemma_geometry(elem);
    let stride = stride_of(elem);
    assert(capacity * stride == 8 * (capacity * (stride / 8))) by (nonlinear_arith)
        requires
            stride == 8 * (stride / 8),
    ;
}

/// A fresh lossy ring in a region is a ring: its slots are laid out, and its
/// producer belongs to it.
pub proof fn a_fresh_region_is_a_ring(
    before: Seq<u64>,
    elem: ElemType,
    capacity: usize,
    slack: u64,
    token: u64,
)
    requires
        slot_fault(elem) is None,
        is_pow2(elem.align as int),
        ring_capacity(capacity as int),
        before.len() == words_for(layout_len(capacity as int, stride_of(elem), 384, 0)),
    ensures
        ({
            let region = lossy_region(
                before,
                crate::region::KIND_BCAST_ELEMS,
                capacity,
                elem.size,
                stride_of(elem) as usize,
                slack,
                token,
            );
            let g = geometry(elem, capacity, 384);
            &&& laid_out(g.slots(region), 0)
            &&& crate::shm_lossy::fresh_producer(capacity).inv_shm(region, g)
        }),
{
    let region = lossy_region(
        before,
        crate::region::KIND_BCAST_ELEMS,
        capacity,
        elem.size,
        stride_of(elem) as usize,
        slack,
        token,
    );
    let g = geometry(elem, capacity, 384);
    a_sized_region_holds_its_slots(region, elem, capacity, 384);
    assert forall|i: int| 0 <= i < g.cap() implies (#[trigger] g.slots(region)[i]).seq == 0 by {
        g.lemma_slot(region, i);
    }
}

impl SlotGeometry {
    /// The number of slots.
    pub open spec fn cap(&self) -> int {
        self.mask + 1
    }

    /// The slots lie in the region past the header, and an element in its
    /// slot behind the generation.
    pub open spec fn fits(&self, region: Seq<u64>) -> bool {
        &&& ring_capacity(self.cap())
        &&& self.base >= 48
        &&& 1 <= self.payload
        &&& self.payload + self.words <= self.stride
        &&& self.base + self.cap() * self.stride <= region.len()
    }

    /// Where slot `i` starts.
    pub open spec fn at(&self, i: int) -> int {
        self.base + i * self.stride
    }

    /// Slot `i`.
    pub open spec fn slot(&self, region: Seq<u64>, i: int) -> Slot<Seq<u64>> {
        Slot {
            seq: region[self.at(i)],
            data: Some(
                region.subrange(
                    self.at(i) + self.payload,
                    self.at(i) + self.payload + self.words,
                ),
            ),
        }
    }

    /// The slots of the region.
    pub open spec fn slots(&self, region: Seq<u64>) -> Seq<Slot<Seq<u64>>> {
        Seq::new(self.cap() as nat, |i: int| self.slot(region, i))
    }

    /// The region after message `s` has been written.
    pub open spec fn with_element(&self, region: Seq<u64>, s: int, element: Seq<u64>) -> Seq<u64> {
        let at = self.at(s % self.cap());
        with_words(region, at + self.payload, element).update(at, (2 * s + 2) as u64)
    }

    /// A slot lies in the region, and apart from the others.
    proof fn lemma_slot(&self, region: Seq<u64>, i: int)
        requires
            self.fits(region),
            0 <= i < self.cap(),
        ensures
            self.base <= self.at(i),
            self.at(i) + self.stride <= region.len(),
            forall|j: int|
                0 <= j < self.cap() && j != i ==> self.at(i) + self.stride <= #[trigger] self.at(j)
                    || self.at(j) + self.stride <= self.at(i),
    {
        let stride = self.stride as int;
        let cap = self.cap();
        assert(0 <= i * stride && i * stride + stride <= cap * stride) by (nonlinear_arith)
            requires
                0 <= i < cap,
                0 <= stride,
        ;
        assert forall|j: int| 0 <= j < cap && j != i implies self.at(i) + stride
            <= #[trigger] self.at(j) || self.at(j) + stride <= self.at(i) by {
            if i < j {
                assert(i * stride + stride <= j * stride) by (nonlinear_arith)
                    requires
                        i < j,
                        0 <= stride,
                ;
            } else {
                assert(j * stride + stride <= i * stride) by (nonlinear_arith)
                    requires
                        j < i,
                        0 <= stride,
                ;
            }
        }
    }

    /// Writing a message leaves what lies below the slots alone.
    pub proof fn lemma_element_outside(&self, region: Seq<u64>, s: int, element: Seq<u64>)
        requires
            self.fits(region),
            element.len() == self.words,
        ensures
            self.with_element(region, s, element).len() == region.len(),
            forall|i: int|
                0 <= i < self.base ==> #[trigger] self.with_element(region, s, element)[i]
                    == region[i],
    {
        vstd::arithmetic::div_mod::lemma_mod_bound(s, self.cap());
        self.lemma_slot(region, s % self.cap());
    }

    /// Where slot `i` starts.
    fn locate(&self, region: &[u64], i: usize) -> (r: usize)
        requires
            self.fits(region@),
            i < self.cap(),
        ensures
            r == self.at(i as int),
            r + self.stride <= region@.len(),
            region@.len() <= usize::MAX,
    {
        let len: usize = region.len();
        proof {
            self.lemma_slot(region@, i as int);
        }
        self.base + i * self.stride
    }

    /// Write message `s` into its slot: announce it, store its words, publish
    /// it.
    pub fn write(&self, region: &mut [u64], s: u64, element: &[u64])
        requires
            self.fits(old(region)@),
            element@.len() == self.words,
            s < MAX_CURSOR,
        ensures
            final(region)@ == self.with_element(old(region)@, s as int, element@),
            self.slots(final(region)@) == with_message(
                self.slots(old(region)@),
                s as int,
                element@,
            ),
            final(region)@.len() == old(region)@.len(),
            forall|i: int|
                0 <= i < self.base ==> #[trigger] final(region)@[i] == old(region)@[i],
    {
        let index: usize = slot_index(s, self.mask);
        let at: usize = self.locate(region, index);
        proof {
            self.lemma_slot(region@, index as int);
        }
        region[at] = 2 * s + 1;
        copy_in_words(element, region, at + self.payload);
        region[at] = 2 * s + 2;
        proof {
            let before = self.slots(old(region)@);
            let after = self.slots(region@);
            let expected = with_message(before, s as int, element@);
            assert forall|j: int| 0 <= j < self.cap() implies after[j] == expected[j] by {
                self.lemma_slot(region@, j);
                let a = self.at(j) + self.payload;
                if j == index {
                    assert(region@.subrange(a, a + self.words) =~= element@);
                } else {
                    assert(self.at(index as int) + self.stride <= self.at(j) || self.at(j)
                        + self.stride <= self.at(index as int));
                    assert(region@.subrange(a, a + self.words) =~= old(region)@.subrange(
                        a,
                        a + self.words,
                    ));
                }
            }
            assert(after =~= expected);
        }
    }

    /// The element in the slot of message `s`, which the caller knows to be
    /// there.
    pub fn element(&self, region: &[u64], s: u64) -> (r: Vec<u64>)
        requires
            self.fits(region@),
        ensures
            r@ == message(self.slots(region@), s as int),
    {
        let index: usize = slot_index(s, self.mask);
        let at: usize = self.locate(region, index);
        copy_out_words(region, at + self.payload, self.words)
    }

    /// The seqlock read: validate, copy, validate again.
    pub fn read(&self, region: &[u64], s: u64) -> (r: Option<Vec<u64>>)
        requires
            self.fits(region@),
            s < MAX_CURSOR,
        ensures
            match r {
                Some(element) => holds(self.slots(region@), s as int) && element@ == message(
                    self.slots(region@),
                    s as int,
                ),
                None => !holds(self.slots(region@), s as int),
            },
    {
        let index: usize = slot_index(s, self.mask);
        let at: usize = self.locate(region, index);
        let v1: u64 = region[at];
        if v1 != 2 * s + 2 {
            return None;
        }
        let out = copy_out_words(region, at + self.payload, self.words);
        let v2: u64 = region[at];
        accept(2 * s + 2, v1, Some(out), v2)
    }
}

impl Producer {
    /// The producer belongs to the region: the slots are laid out as the
    /// pushes left them, but for what a predecessor may have left half
    /// written, and the tail trails by less than a batch.
    pub open spec fn inv_shm(&self, region: Seq<u64>, g: SlotGeometry) -> bool {
        &&& g.fits(region)
        &&& self.mask == g.mask
        &&& laid_out_apart(g.slots(region), self.next_seq as int)
        &&& self.next_seq <= MAX_CURSOR
        &&& self.next_seq == word(region, OFF_WRITE_CURSOR as int) + self.unpublished
        &&& self.unpublished < self.tail_batch
        &&& 1 <= self.tail_batch <= max_tail_batch(g.cap())
    }

    /// Publish in a region what was pushed and is not published yet.
    pub fn flush_shm(&mut self, region: &mut [u64], g: &SlotGeometry)
        requires
            old(self).inv_shm(old(region)@, *g),
        ensures
            *final(self) == (Producer { unpublished: 0, ..*old(self) }),
            final(region)@ == old(region)@.update(16, old(self).next_seq),
            final(self).inv_shm(final(region)@, *g),
    {
        if self.unpublished > 0 {
            self.unpublished = 0;
            store_u64(region, OFF_WRITE_CURSOR, self.next_seq);
        }
        proof {
            assert(region@ =~= old(region)@.update(16, old(self).next_seq));
            lemma_below_slots(*g, old(region)@, region@);
        }
    }

    /// Publish the tail of a region only with every `batch`-th push. The batch
    /// is kept between one and an eighth of the capacity; the value in force is
    /// returned. A debt that the new batch does not allow is paid at once.
    pub fn set_tail_batch_shm(&mut self, region: &mut [u64], g: &SlotGeometry, batch: usize) -> (r:
        usize)
        requires
            old(self).inv_shm(old(region)@, *g),
        ensures
            r == clamped(batch as int, 1, max_tail_batch(g.cap())),
            *final(self) == (Producer {
                tail_batch: r as u64,
                unpublished: if old(self).unpublished >= r {
                    0
                } else {
                    old(self).unpublished
                },
                ..*old(self)
            }),
            final(region)@ == (if old(self).unpublished >= r {
                old(region)@.update(16, old(self).next_seq)
            } else {
                old(region)@
            }),
            final(self).inv_shm(final(region)@, *g),
    {
        let batch: u64 = tail_batch_in_force(self.mask, batch);
        self.tail_batch = batch;
        if self.unpublished >= batch {
            self.unpublished = 0;
            store_u64(region, OFF_WRITE_CURSOR, self.next_seq);
        }
        proof {
            lemma_below_slots(*g, old(region)@, region@);
        }
        batch as usize
    }

    /// Publish an element. Never waits; the element of a lap ago is
    /// overwritten.
    pub fn push_shm(&mut self, region: &mut [u64], g: &SlotGeometry, element: &[u64])
        requires
            old(self).inv_shm(old(region)@, *g),
            element@.len() == g.words,
            old(self).next_seq < MAX_CURSOR,
        ensures
            final(region)@ == (if old(self).unpublished + 1 >= old(self).tail_batch {
                g.with_element(old(region)@, old(self).next_seq as int, element@).update(
                    16,
                    (old(self).next_seq + 1) as u64,
                )
            } else {
                g.with_element(old(region)@, old(self).next_seq as int, element@)
            }),
            g.slots(final(region)@) == with_message(
                g.slots(old(region)@),
                old(self).next_seq as int,
                element@,
            ),
            word(final(region)@, OFF_WRITE_CURSOR as int) == (if old(self).unpublished + 1
                >= old(self).tail_batch {
                old(self).next_seq + 1
            } else {
                word(old(region)@, OFF_WRITE_CURSOR as int) as int
            }),
            *final(self) == (Producer {
                next_seq: (old(self).next_seq + 1) as u64,
                unpublished: if old(self).unpublished + 1 >= old(self).tail_batch {
                    0
                } else {
                    (old(self).unpublished + 1) as u64
                },
                ..*old(self)
            }),
            laid_out(g.slots(final(region)@), final(self).next_seq as int),
            final(self).inv_shm(final(region)@, *g),
    {
        let s: u64 = self.next_seq;
        g.write(region, s, element);
        proof {
            lemma_written(g.slots(old(region)@), s as int, element@);
        }
        self.next_seq = s + 1;
        self.unpublished = self.unpublished + 1;
        let ghost written = region@;
        if self.unpublished >= self.tail_batch {
            self.unpublished = 0;
            store_u64(region, OFF_WRITE_CURSOR, self.next_seq);
        }
        proof {
            lemma_below_slots(*g, written, region@);
        }
    }
}

/// A store below the slots leaves them alone.
pub proof fn lemma_below_slots(g: SlotGeometry, before: Seq<u64>, after: Seq<u64>)
    requires
        g.fits(before),
        after.len() == before.len(),
        forall|i: int| g.base <= i < before.len() ==> after[i] == before[i],
    ensures
        g.slots(after) == g.slots(before),
{
    assert forall|i: int| 0 <= i < g.cap() implies g.slot(after, i) == g.slot(before, i) by {
        g.lemma_slot(before, i);
        let a = g.at(i) + g.payload;
        assert(after.subrange(a, a + g.words) =~= before.subrange(a, a + g.words));
    }
    assert(g.slots(after) =~= g.slots(before));
}

impl SlotReader {
    /// Skip everything published so far in a region; the number of elements
    /// skipped.
    pub fn skip_to_latest_shm(&mut self, region: &[u64]) -> (skipped: u64)
        requires
            region@.len() > OFF_WRITE_CURSOR / 8,
        ensures
            old(self).skips(word(region@, OFF_WRITE_CURSOR as int), final(self), skipped),
            old(self).inv(word(region@, OFF_WRITE_CURSOR as int)) ==> final(self).inv(
                word(region@, OFF_WRITE_CURSOR as int),
            ),
    {
        self.skip_to_latest(read_u64(region, OFF_WRITE_CURSOR))
    }

    /// Another reader of a region, which sees what is published from now on.
    pub fn subscribe_shm(&self, region: &[u64]) -> (r: SlotReader)
        requires
            region@.len() > OFF_WRITE_CURSOR / 8,
        ensures
            ({
                let tail = word(region@, OFF_WRITE_CURSOR as int);
                &&& r == (SlotReader { pos: tail, tail_cache: tail, ..*self })
                &&& self.inv(tail) ==> r.inv(tail)
            }),
    {
        SlotReader::join(self.mask, self.slack, read_u64(region, OFF_WRITE_CURSOR))
    }

    /// How many elements published in a region the reader has not seen.
    pub fn lag_shm(&self, region: &[u64]) -> (r: u64)
        requires
            region@.len() > OFF_WRITE_CURSOR / 8,
        ensures
            r == (if word(region@, OFF_WRITE_CURSOR as int) > self.pos {
                word(region@, OFF_WRITE_CURSOR as int) - self.pos
            } else {
                0
            }),
    {
        self.lag(read_u64(region, OFF_WRITE_CURSOR))
    }

    /// The next element of a region if there is one.
    pub fn try_pop_shm(&mut self, region: &[u64], g: &SlotGeometry) -> (r: Result<
        Option<Vec<u64>>,
        PopError,
    >)
        requires
            g.fits(region@),
            old(self).inv(word(region@, OFF_WRITE_CURSOR as int)),
            old(self).mask == g.mask,
        ensures
            ({
                let tail = word(region@, OFF_WRITE_CURSOR as int);
                let closed = word(region@, OFF_CLOSED as int) != 0;
                let slots = g.slots(region@);
                let s = old(self).pos as int;
                match r {
                    Ok(Some(element)) => {
                        &&& s < tail
                        &&& holds(slots, s)
                        &&& element@ == message(slots, s)
                        &&& *final(self) == (SlotReader {
                            pos: (s + 1) as u64,
                            tail_cache: old(self).looked_up(tail),
                            ..*old(self)
                        })
                    },
                    Ok(None) => !closed && s == tail && *final(self) == (SlotReader {
                        tail_cache: tail,
                        ..*old(self)
                    }),
                    Err(PopError::Lagged { missed }) => {
                        &&& s < tail
                        &&& !holds(slots, s)
                        &&& *final(self) == (SlotReader {
                            pos: old(self).resumed(tail),
                            tail_cache: tail,
                            ..*old(self)
                        })
                        &&& s + missed == final(self).pos
                    },
                    Err(PopError::Closed) => closed && s == tail && *final(self) == (SlotReader {
                        tail_cache: tail,
                        ..*old(self)
                    }),
                }
            }),
            final(self).inv(word(region@, OFF_WRITE_CURSOR as int)),
    {
        let tail: u64 = read_u64(region, OFF_WRITE_CURSOR);
        if !self.has_item(tail) {
            let closed: bool = read_u64(region, OFF_CLOSED) != 0;
            if self.drained(tail, closed) {
                return Err(PopError::Closed);
            }
            return Ok(None);
        }
        let s: u64 = self.pos;
        match g.read(region, s) {
            Some(element) => {
                self.pos = s + 1;
                Ok(Some(element))
            },
            None => {
                let missed: u64 = self.reposition(tail);
                Err(PopError::Lagged { missed })
            },
        }
    }
}

} // verus!
