//! Elements in the slots of a region whose registered consumers hold the
//! producer back: the anchored ring over shared memory.
//!
//! Observers of such a region read it as they read a lossy ring.

use crate::anchored::{Anchor, PopRef, Producer, WriteSlot};
use crate::arith::{lemma_distinct_slots, MAX_CURSOR};
use crate::cursor::a_batch_is_an_eighth;
use crate::gate::{
    hand_over, holds_back, room_is_counted_from_the_slowest, GateConsumer, GateProducer,
};
use crate::gate_shm::{gate_of, GateShmConsumer, GateShmProducer};
use crate::handler::{lemma_took_run, took_runs, Handler};
use crate::region::{read_u64, table_fits, word, OFF_CLOSED, OFF_WRITE_CURSOR};
use crate::registry::publish_batch_elems;
use crate::seqlock::{holds, laid_out, laid_out_apart, lemma_written, message, with_message, Slot};
use crate::shm_slots::{lemma_below_slots, SlotGeometry};
use crate::spmc::{drained, Closed};
use vstd::arithmetic::div_mod::lemma_mod_bound;
use vstd::prelude::*;

verus! {

/// The table lies in the region past the header, and the slots past the table.
pub open spec fn elems_fit(
    region: Seq<u64>,
    table_offset: int,
    max_slots: int,
    g: SlotGeometry,
) -> bool {
    &&& g.fits(region)
    &&& table_fits(region, table_offset, max_slots)
    &&& table_offset / 8 + 16 * max_slots <= g.base
}

/// What lies below the slots is not touched by writing one.
proof fn lemma_gate_outside(
    before: Seq<u64>,
    after: Seq<u64>,
    table_offset: int,
    max_slots: int,
    g: SlotGeometry,
)
    requires
        elems_fit(before, table_offset, max_slots, g),
        after.len() == before.len(),
        forall|i: int| 0 <= i < g.base ==> #[trigger] after[i] == before[i],
    ensures
        gate_of(after, table_offset, max_slots) == gate_of(before, table_offset, max_slots),
{
    assert(gate_of(after, table_offset, max_slots).slots =~= gate_of(
        before,
        table_offset,
        max_slots,
    ).slots);
}

/// What publishing an element does to a region: its slot holds the element
/// under its generation, the published cursor is one further, and nothing else
/// changes.
pub open spec fn element_pushed(
    before: Seq<u64>,
    after: Seq<u64>,
    next: u64,
    g: SlotGeometry,
    element: Seq<u64>,
) -> bool {
    &&& after == g.with_element(before, next as int, element).update(16, (next + 1) as u64)
    &&& g.slots(after) == with_message(g.slots(before), next as int, element)
    &&& laid_out(g.slots(after), next + 1)
}

/// What trying to claim the next slot of a region comes to.
pub open spec fn slot_claimed(
    producer: Producer,
    after: Producer,
    region: Seq<u64>,
    side: GateShmProducer,
    g: SlotGeometry,
    r: Option<WriteSlot>,
) -> bool {
    &&& r is Some == side.gate(region).open_for(1, g.cap())
    &&& producer.core.asked(&after.core, side.gate(region), 1)
    &&& r matches Some(slot) ==> slot.claims_shm(&after, region, side, g)
}

/// What committing an element to a claimed slot comes to.
pub open spec fn slot_committed(
    producer: Producer,
    after: Producer,
    region: Seq<u64>,
    region_after: Seq<u64>,
    g: SlotGeometry,
    element: Seq<u64>,
) -> bool {
    &&& element_pushed(region, region_after, producer.core.next_seq, g, element)
    &&& after.core == (GateProducer {
        next_seq: (producer.core.next_seq + 1) as u64,
        ..producer.core
    })
}

/// What trying to push an element comes to.
pub open spec fn push_tried(
    producer: Producer,
    after: Producer,
    region: Seq<u64>,
    region_after: Seq<u64>,
    side: GateShmProducer,
    g: SlotGeometry,
    element: Seq<u64>,
    r: bool,
) -> bool {
    &&& r == side.gate(region).open_for(1, g.cap())
    &&& r ==> element_pushed(region, region_after, producer.core.next_seq, g, element)
    &&& r ==> producer.core.spent(&after.core, side.gate(region), 1)
    &&& !r ==> region_after == region
    &&& !r ==> producer.core.asked(&after.core, side.gate(region), 1)
}

impl Producer {
    /// The producer belongs to the region: the slots are laid out as the
    /// pushes left them, but for what a predecessor may have left half
    /// written.
    pub open spec fn inv_shm(
        &self,
        region: Seq<u64>,
        side: GateShmProducer,
        g: SlotGeometry,
    ) -> bool {
        &&& elems_fit(region, side.table_offset as int, side.max_slots as int, g)
        &&& self.core.inv(side.gate(region))
        &&& self.core.mask == g.mask
        &&& laid_out_apart(g.slots(region), self.core.next_seq as int)
    }

    /// Publish an element if the slowest anchor leaves room for it.
    pub fn try_push_shm(
        &mut self,
        region: &mut [u64],
        side: &GateShmProducer,
        g: &SlotGeometry,
        element: &[u64],
    ) -> (r: bool)
        requires
            old(self).inv_shm(old(region)@, *side, *g),
            element@.len() == g.words,
            old(self).core.next_seq < MAX_CURSOR,
        ensures
            push_tried(
                *old(self),
                *final(self),
                old(region)@,
                final(region)@,
                *side,
                *g,
                element@,
                r,
            ),
            final(self).inv_shm(final(region)@, *side, *g),
    {
        match self.try_claim_shm(region, side, g) {
            None => false,
            Some(slot) => {
                slot.commit_shm(self, region, side, g, element);
                true
            },
        }
    }

    /// Claim the slot of the next element if the slowest anchor leaves room
    /// for it.
    pub fn try_claim_shm(&mut self, region: &[u64], side: &GateShmProducer, g: &SlotGeometry) -> (r:
        Option<WriteSlot>)
        requires
            old(self).inv_shm(region@, *side, *g),
        ensures
            slot_claimed(*old(self), *final(self), region@, *side, *g, r),
            final(self).inv_shm(region@, *side, *g),
    {
        if self.core.has_space_shm(region, side, 1) {
            Some(WriteSlot { seq: self.core.next_seq })
        } else {
            None
        }
    }
}

impl WriteSlot {
    /// The claim is on the producer's next slot in a region, which is granted.
    pub open spec fn claims_shm(
        &self,
        producer: &Producer,
        region: Seq<u64>,
        side: GateShmProducer,
        g: SlotGeometry,
    ) -> bool {
        &&& self.seq == producer.core.next_seq
        &&& producer.inv_shm(region, side, g)
        &&& producer.granted()
    }

    /// Store an element in the claimed slot of a region and publish it.
    pub fn commit_shm(
        self,
        producer: &mut Producer,
        region: &mut [u64],
        side: &GateShmProducer,
        g: &SlotGeometry,
        element: &[u64],
    )
        requires
            self.claims_shm(old(producer), old(region)@, *side, *g),
            element@.len() == g.words,
            old(producer).core.next_seq < MAX_CURSOR,
        ensures
            slot_committed(
                *old(producer),
                *final(producer),
                old(region)@,
                final(region)@,
                *g,
                element@,
            ),
            final(producer).inv_shm(final(region)@, *side, *g),
    {
        g.write(region, self.seq, element);
        let ghost written = region@;
        proof {
            lemma_written(g.slots(old(region)@), self.seq as int, element@);
            lemma_gate_outside(
                old(region)@,
                region@,
                side.table_offset as int,
                side.max_slots as int,
                *g,
            );
        }
        producer.core.publish_shm(region, side, 1);
        proof {
            lemma_below_slots(*g, written, region@);
        }
    }
}

/// What looking for an element of a region comes to: whether there is one, and
/// whether none will come.
pub open spec fn sought(
    anchor: Anchor,
    after: Anchor,
    region: Seq<u64>,
    g: SlotGeometry,
    found: Result<bool, Closed>,
) -> bool {
    let waiting = anchor.pending_shm(region, g).len() > 0;
    &&& after == anchor.looked_shm(word(region, OFF_WRITE_CURSOR as int))
    &&& match found {
        Ok(there) => there == waiting && (!there ==> word(region, OFF_CLOSED as int) == 0),
        Err(_) => !waiting && word(region, OFF_CLOSED as int) != 0,
    }
}

/// What stepping past an element of a region comes to: the anchor is one
/// message further, and its slot says so where progress was published and the
/// slot is still leased to it.
pub open spec fn stepped(
    anchor: Anchor,
    after: Anchor,
    region: Seq<u64>,
    region_after: Seq<u64>,
    side: GateShmConsumer,
    g: SlotGeometry,
) -> bool {
    &&& anchor.next(&after, anchor.core.write_cache)
    &&& region_after == (if after.core.published != anchor.core.published {
        side.with_cursor(region, after.core.published)
    } else {
        region
    })
    &&& after.pending_shm(region_after, g) == anchor.pending_shm(region, g).drop_first()
}

impl Anchor {
    /// The anchor reads this region. Its slot may have been retired, or
    /// leased to another handle.
    pub open spec fn placed_shm(
        &self,
        region: Seq<u64>,
        side: GateShmConsumer,
        g: SlotGeometry,
    ) -> bool {
        &&& elems_fit(region, side.table_offset as int, side.max_slots as int, g)
        &&& side.fits(region)
        &&& self.core.placed(side.gate(region))
        &&& self.core.mask == g.mask
    }

    /// The anchor belongs to the region, its slot is leased to it, and what it
    /// has not released is in the slots of the ring.
    pub open spec fn inv_shm(
        &self,
        region: Seq<u64>,
        side: GateShmConsumer,
        g: SlotGeometry,
    ) -> bool {
        &&& self.placed_shm(region, side, g)
        &&& side.registered(self.core, region)
        &&& forall|s: int|
            self.core.published <= s < word(region, OFF_WRITE_CURSOR as int) ==> #[trigger] holds(
                g.slots(region),
                s,
            )
    }

    /// The elements that the anchor will be handed, oldest first.
    pub open spec fn pending_shm(&self, region: Seq<u64>, g: SlotGeometry) -> Seq<Seq<u64>> {
        Seq::new(
            (word(region, OFF_WRITE_CURSOR as int) - self.core.read_cursor) as nat,
            |i: int| message(g.slots(region), self.core.read_cursor + i),
        )
    }

    /// The anchor after a look at the published cursor.
    pub open spec fn looked_shm(&self, tail: u64) -> Anchor {
        Anchor {
            core: GateConsumer {
                write_cache: if self.core.write_cache == self.core.read_cursor {
                    tail
                } else {
                    self.core.write_cache
                },
                ..self.core
            },
        }
    }

    /// The number of elements that the anchor will be handed.
    pub fn len_shm(&self, region: &[u64], side: &GateShmConsumer, g: &SlotGeometry) -> (r: usize)
        requires
            self.placed_shm(region@, *side, *g),
            word(region@, OFF_WRITE_CURSOR as int) - self.core.read_cursor <= usize::MAX,
        ensures
            r == self.pending_shm(region@, *g).len(),
    {
        read_u64(region, OFF_WRITE_CURSOR).wrapping_sub(self.core.read_cursor) as usize
    }

    /// Look for an element; `Closed` once the producer is gone and everything
    /// is consumed.
    fn seek_shm(&mut self, region: &[u64], side: &GateShmConsumer, g: &SlotGeometry) -> (r: Result<
        bool,
        Closed,
    >)
        requires
            old(self).placed_shm(region@, *side, *g),
        ensures
            sought(*old(self), *final(self), region@, *g, r),
            r == Ok::<bool, Closed>(true) ==> final(self).core.read_cursor
                < final(self).core.write_cache,
            final(self).placed_shm(region@, *side, *g),
            old(self).inv_shm(region@, *side, *g) ==> final(self).inv_shm(region@, *side, *g),
    {
        if self.core.has_item_shm(region, side) {
            return Ok(true);
        }
        if read_u64(region, OFF_CLOSED) != 0 {
            return Err(Closed);
        }
        Ok(false)
    }

    /// Step past the oldest element.
    fn step_shm(&mut self, region: &mut [u64], side: &GateShmConsumer, g: &SlotGeometry)
        requires
            old(self).placed_shm(old(region)@, *side, *g),
            old(self).core.read_cursor < old(self).core.write_cache,
        ensures
            stepped(*old(self), *final(self), old(region)@, final(region)@, *side, *g),
            final(self).placed_shm(final(region)@, *side, *g),
            old(self).inv_shm(old(region)@, *side, *g) ==> final(self).inv_shm(
                final(region)@,
                *side,
                *g,
            ),
    {
        let capacity: u64 = self.core.mask + 1;
        let was_full: bool = self.core.write_cache.wrapping_sub(self.core.read_cursor) > capacity
            - 1;
        let batch: u64 = publish_batch_elems(capacity);
        self.core.advance_shm(region, side, 1, was_full, batch);
        proof {
            lemma_below_slots(*g, old(region)@, region@);
            assert(self.pending_shm(region@, *g) =~= old(self).pending_shm(
                old(region)@,
                *g,
            ).drop_first());
        }
    }

    /// Consume the oldest element of a region if there is one; `Closed` once
    /// the producer is gone and everything is consumed.
    pub fn try_pop_shm(
        &mut self,
        region: &mut [u64],
        side: &GateShmConsumer,
        g: &SlotGeometry,
    ) -> (r: Result<Option<Vec<u64>>, Closed>)
        requires
            old(self).placed_shm(old(region)@, *side, *g),
        ensures
            ({
                let tail = word(old(region)@, OFF_WRITE_CURSOR as int);
                let closed = word(old(region)@, OFF_CLOSED as int) != 0;
                let pending = old(self).pending_shm(old(region)@, *g);
                let looked = old(self).looked_shm(tail);
                match r {
                    Ok(Some(element)) => {
                        &&& pending.len() > 0
                        &&& element@ == pending[0]
                        &&& stepped(looked, *final(self), old(region)@, final(region)@, *side, *g)
                        &&& final(self).pending_shm(final(region)@, *g) == pending.drop_first()
                    },
                    Ok(None) => {
                        &&& !closed
                        &&& pending.len() == 0
                        &&& final(region)@ == old(region)@
                        &&& *final(self) == looked
                    },
                    Err(_) => {
                        &&& closed
                        &&& pending.len() == 0
                        &&& final(region)@ == old(region)@
                        &&& *final(self) == looked
                    },
                }
            }),
            final(self).placed_shm(final(region)@, *side, *g),
            old(self).inv_shm(old(region)@, *side, *g) ==> final(self).inv_shm(
                final(region)@,
                *side,
                *g,
            ),
    {
        if !self.seek_shm(region, side, g)? {
            return Ok(None);
        }
        let element = g.element(region, self.core.read_cursor);
        self.step_shm(region, side, g);
        Ok(Some(element))
    }

    /// Borrow the oldest element of a region if there is one; `Closed` once
    /// the producer is gone and everything is consumed.
    pub fn try_pop_ref_shm(
        &mut self,
        region: &[u64],
        side: &GateShmConsumer,
        g: &SlotGeometry,
    ) -> (r: Result<Option<PopRef>, Closed>)
        requires
            old(self).placed_shm(region@, *side, *g),
        ensures
            sought(
                *old(self),
                *final(self),
                region@,
                *g,
                match r {
                    Ok(borrow) => Ok(borrow is Some),
                    Err(e) => Err(e),
                },
            ),
            r matches Ok(Some(borrow)) ==> borrow.borrows_shm(final(self), region@, *side, *g),
            final(self).placed_shm(region@, *side, *g),
            old(self).inv_shm(region@, *side, *g) ==> final(self).inv_shm(region@, *side, *g),
    {
        if !self.seek_shm(region, side, g)? {
            return Ok(None);
        }
        Ok(Some(PopRef { seq: self.core.read_cursor }))
    }

    /// Consume a batch of a region: everything in it, at most the
    /// deferred-publish bound. Each element is handed to `f`, oldest first; the
    /// progress is published once, after the last. The number of elements.
    ///
    /// An element counts as consumed before `f` sees it, and where `f` unwinds
    /// the progress is published on the way out (see [`hand_over`]).
    pub fn drain_shm<H: Handler<[u64]>>(
        &mut self,
        region: &mut [u64],
        side: &GateShmConsumer,
        g: &SlotGeometry,
        f: H,
    ) -> (r: usize)
        requires
            old(self).placed_shm(old(region)@, *side, *g),
            forall|m: &[u64], i: int|
                0 <= i < old(self).pending_shm(old(region)@, *g).len() && m@ == (
                #[trigger] old(self).pending_shm(old(region)@, *g)[i]) ==> #[trigger] f.accepts(
                    m,
                ),
        ensures
            r == drained(old(self).pending_shm(old(region)@, *g).len() as int, g.cap()),
            exists|after: H| #[trigger]
                took_runs(f, old(self).pending_shm(old(region)@, *g).take(r as int), after)
                    && has_resolved(after),
            final(self).core == (GateConsumer {
                read_cursor: (old(self).core.read_cursor + r) as u64,
                published: if r == 0 {
                    old(self).core.published
                } else {
                    (old(self).core.read_cursor + r) as u64
                },
                write_cache: word(old(region)@, OFF_WRITE_CURSOR as int),
                ..old(self).core
            }),
            final(region)@ == (if r == 0 {
                old(region)@
            } else {
                side.with_cursor(old(region)@, final(self).core.published)
            }),
            final(self).pending_shm(final(region)@, *g) == old(self).pending_shm(
                old(region)@,
                *g,
            ).skip(r as int),
            final(self).placed_shm(final(region)@, *side, *g),
            old(self).inv_shm(old(region)@, *side, *g) ==> final(self).inv_shm(
                final(region)@,
                *side,
                *g,
            ),
    {
        let mut f = f;
        let ghost f0 = f;
        let end: u64 = self.core.refresh_shm(region, side);
        let available: u64 = end.wrapping_sub(self.core.read_cursor);
        let ghost looked = *self;
        let ghost start = self.core.read_cursor;
        let ghost pending = old(self).pending_shm(old(region)@, *g);
        if available == 0 {
            proof {
                assert(self.pending_shm(region@, *g) =~= pending.skip(0));
                assert(took_runs(f0, pending.take(0), f));
            }
            return 0;
        }
        let batch: u64 = publish_batch_elems(self.core.mask + 1);
        let count: u64 = if available < batch {
            available
        } else {
            batch
        };
        let mut i: u64 = 0;
        while i < count
            invariant
                i <= count,
                count <= available,
                start + available == word(region@, OFF_WRITE_CURSOR as int),
                start == old(self).core.read_cursor,
                region@ == old(region)@,
                old(self).placed_shm(region@, *side, *g),
                looked.placed_shm(region@, *side, *g),
                old(self).inv_shm(region@, *side, *g) ==> looked.inv_shm(region@, *side, *g),
                pending == old(self).pending_shm(old(region)@, *g),
                looked.core == (GateConsumer {
                    write_cache: (start + available) as u64,
                    ..old(self).core
                }),
                self.core == (GateConsumer { read_cursor: (start + i) as u64, ..looked.core }),
                forall|m: &[u64], j: int|
                    0 <= j < pending.len() && m@ == (#[trigger] pending[j])
                        ==> #[trigger] f.accepts(m),
                took_runs(f0, pending.take(i as int), f),
            decreases count - i,
        {
            let element = g.element(region, self.core.read_cursor);
            self.core.read_cursor = self.core.read_cursor.wrapping_add(1);
            let msg: &[u64] = element.as_slice();
            assert(msg@ == pending[i as int]);
            let place: Option<&mut u64> = side.place(region);
            let ghost mid = f;
            hand_over(&mut self.core, place, &mut f, msg);
            proof {
                assert(region@ =~= old(region)@);
                lemma_took_run(f0, pending.take(i as int), mid, msg, f);
                assert(pending.take(i as int).push(msg@) =~= pending.take(i + 1));
            }
            i += 1;
        }
        assert(self.placed_shm(region@, *side, *g));
        assert(old(self).inv_shm(region@, *side, *g) ==> self.inv_shm(region@, *side, *g));
        self.core.flush_pending_shm(region, side);
        proof {
            lemma_below_slots(*g, old(region)@, region@);
            assert(self.pending_shm(region@, *g) =~= pending.skip(count as int));
        }
        count as usize
    }
}

impl PopRef {
    /// The borrow is of the anchor's oldest element in a region.
    pub open spec fn borrows_shm(
        &self,
        anchor: &Anchor,
        region: Seq<u64>,
        side: GateShmConsumer,
        g: SlotGeometry,
    ) -> bool {
        &&& anchor.placed_shm(region, side, g)
        &&& self.seq == anchor.core.read_cursor
        &&& anchor.core.read_cursor < anchor.core.write_cache
    }

    /// The element.
    pub fn get_shm(
        &self,
        anchor: &Anchor,
        region: &[u64],
        side: &GateShmConsumer,
        g: &SlotGeometry,
    ) -> (r: Vec<u64>)
        requires
            self.borrows_shm(anchor, region@, *side, *g),
        ensures
            anchor.pending_shm(region@, *g).len() > 0,
            r@ == anchor.pending_shm(region@, *g)[0],
    {
        g.element(region, self.seq)
    }

    /// Step past the element.
    pub fn release_shm(
        self,
        anchor: &mut Anchor,
        region: &mut [u64],
        side: &GateShmConsumer,
        g: &SlotGeometry,
    )
        requires
            self.borrows_shm(old(anchor), old(region)@, *side, *g),
        ensures
            stepped(*old(anchor), *final(anchor), old(region)@, final(region)@, *side, *g),
            final(anchor).placed_shm(final(region)@, *side, *g),
            old(anchor).inv_shm(old(region)@, *side, *g) ==> final(anchor).inv_shm(
                final(region)@,
                *side,
                *g,
            ),
    {
        anchor.step_shm(region, side, g);
    }
}

/// A push reaches every anchor of a region: its element is added at the end of
/// what the anchor will be handed, and nothing that is pending is touched.
pub proof fn a_push_reaches_every_anchor(
    producer: Producer,
    side: GateShmProducer,
    anchor: Anchor,
    slot: GateShmConsumer,
    g: SlotGeometry,
    before: Seq<u64>,
    after: Seq<u64>,
    element: Seq<u64>,
)
    requires
        producer.inv_shm(before, side, g),
        anchor.inv_shm(before, slot, g),
        slot.table_offset == side.table_offset,
        slot.max_slots == side.max_slots,
        side.gate(before).open_for(1, g.cap()),
        producer.core.next_seq < MAX_CURSOR,
        element.len() == g.words,
        element_pushed(before, after, producer.core.next_seq, g, element),
    ensures
        anchor.inv_shm(after, slot, g),
        anchor.pending_shm(after, g) == anchor.pending_shm(before, g).push(element),
{
    let tail = producer.core.next_seq as int;
    let cap = g.cap();
    let k = anchor.core.slot.at();
    assert(holds_back(side.gate(before).slots[k]));
    g.lemma_element_outside(before, tail, element);
    assert(slot.gate(after).slots =~= slot.gate(before).slots);
    assert forall|s: int| anchor.core.published <= s < tail + 1 implies #[trigger] holds(
        g.slots(after),
        s,
    ) by {
        lemma_mod_bound(s, cap);
        lemma_mod_bound(tail, cap);
        if s < tail {
            assert(holds(g.slots(before), s));
            lemma_distinct_slots(s, tail, cap);
        }
    }
    assert forall|i: int| 0 <= i < anchor.pending_shm(before, g).len() implies #[trigger]
        anchor.pending_shm(after, g)[i] == anchor.pending_shm(before, g)[i] by {
        let s: int = anchor.core.read_cursor + i;
        lemma_distinct_slots(s, tail, cap);
        lemma_mod_bound(s, cap);
        lemma_mod_bound(tail, cap);
    }
    lemma_mod_bound(tail, cap);
    assert(anchor.pending_shm(after, g) =~= anchor.pending_shm(before, g).push(element));
}

/// What a producer that died left in its next slot, whatever generation it had
/// announced there, is invisible to the anchors: everything published is there
/// to be taken.
pub proof fn a_torn_write_is_invisible(
    producer: Producer,
    side: GateShmProducer,
    anchor: Anchor,
    slot: GateShmConsumer,
    g: SlotGeometry,
    before: Seq<u64>,
    after: Seq<u64>,
    torn: Slot<Seq<u64>>,
)
    requires
        producer.inv_shm(before, side, g),
        anchor.inv_shm(before, slot, g),
        slot.table_offset == side.table_offset,
        slot.max_slots == side.max_slots,
        side.gate(before).open_for(1, g.cap()),
        g.slots(after) == g.slots(before).update(
            producer.core.next_seq as int % g.cap(),
            torn,
        ),
        after.len() == before.len(),
        forall|i: int| 0 <= i < g.base ==> #[trigger] after[i] == before[i],
    ensures
        anchor.inv_shm(after, slot, g),
        anchor.pending_shm(after, g) == anchor.pending_shm(before, g),
{
    let tail = producer.core.next_seq as int;
    let cap = g.cap();
    let k = anchor.core.slot.at();
    assert(holds_back(side.gate(before).slots[k]));
    lemma_gate_outside(before, after, side.table_offset as int, side.max_slots as int, g);
    lemma_mod_bound(tail, cap);
    assert forall|s: int| anchor.core.published <= s < tail implies #[trigger] holds(
        g.slots(after),
        s,
    ) && message(g.slots(after), s) == message(g.slots(before), s) by {
        lemma_mod_bound(s, cap);
        assert(holds(g.slots(before), s));
        lemma_distinct_slots(s, tail, cap);
    }
    assert forall|i: int| 0 <= i < anchor.pending_shm(before, g).len() implies #[trigger]
        anchor.pending_shm(after, g)[i] == anchor.pending_shm(before, g)[i] by {
        assert(holds(g.slots(after), anchor.core.read_cursor + i));
    }
    assert(anchor.pending_shm(after, g) =~= anchor.pending_shm(before, g));
}

/// In a region, too, claiming a slot and committing an element comes to what
/// pushing the element comes to, and a claim is refused exactly where a push
/// is.
pub proof fn claim_and_commit_is_push(
    producer: Producer,
    claimer: Producer,
    committer: Producer,
    before: Seq<u64>,
    after: Seq<u64>,
    side: GateShmProducer,
    g: SlotGeometry,
    slot: Option<WriteSlot>,
    element: Seq<u64>,
)
    requires
        producer.inv_shm(before, side, g),
        slot_claimed(producer, claimer, before, side, g, slot),
        if slot is Some {
            slot_committed(claimer, committer, before, after, g, element)
        } else {
            committer == claimer && after == before
        },
    ensures
        push_tried(producer, committer, before, after, side, g, element, slot is Some),
{
    assert(producer.core.asked(&claimer.core, side.gate(before), 1));
}

/// In a region, too, a anchor that takes one message of a whole ring of them,
/// and knows of all, leaves room: where everybody else does, the producer can
/// go on.
pub proof fn a_pop_from_a_full_ring_leaves_room(
    anchor: Anchor,
    after: Anchor,
    region: Seq<u64>,
    region_after: Seq<u64>,
    side: GateShmConsumer,
    g: SlotGeometry,
)
    requires
        anchor.inv_shm(region, side, g),
        anchor.pending_shm(region, g).len() == g.cap(),
        anchor.core.write_cache == region[16],
        stepped(anchor, after, region, region_after, side, g),
        forall|k: int|
            0 <= k < side.max_slots && k != side.claim.slot && (#[trigger] side.gate(
                region,
            ).slots[k]).active && side.gate(region).slots[k].cursor != u64::MAX ==> region[16]
                - side.gate(region).slots[k].cursor < g.cap(),
    ensures
        region_after[side.table_offset as int / 8 + 16 * side.claim.slot + 2]
            == anchor.core.read_cursor + 1,
        region_after[16] == region[16],
        forall|k: int|
            0 <= k < side.max_slots && (#[trigger] side.gate(region_after).slots[k]).active
                && side.gate(region_after).slots[k].cursor != u64::MAX ==> region_after[16]
                - side.gate(region_after).slots[k].cursor < g.cap(),
        side.gate(region_after).open_for(1, g.cap()),
{
    let w = side.table_offset as int / 8 + 16 * side.claim.slot + 2;
    assert(region_after == region.update(w, ((anchor.core.read_cursor + 1) as u64)));
    assert forall|k: int|
        0 <= k < side.max_slots && (#[trigger] side.gate(region_after).slots[k]).active
            && side.gate(region_after).slots[k].cursor != u64::MAX implies region_after[16]
        - side.gate(region_after).slots[k].cursor < g.cap() by {
        if k != side.claim.slot {
            assert(side.gate(region).slots[k] == side.gate(region_after).slots[k]);
        }
    }
}

/// The producer is told of a anchor's progress in a region in time, and not more
/// often than need be. Once nothing known is left to read, the slot says so;
/// what it does not say is less than an eighth of the ring and less than 64
/// messages; and a message that is taken from the middle of a batch is not told
/// at once.
pub proof fn a_pop_is_told_in_time(
    anchor: Anchor,
    after: Anchor,
    region: Seq<u64>,
    region_after: Seq<u64>,
    side: GateShmConsumer,
    g: SlotGeometry,
)
    requires
        anchor.inv_shm(region, side, g),
        anchor.core.read_cursor < anchor.core.write_cache,
        stepped(anchor, after, region, region_after, side, g),
    ensures
        ({
            let w = side.table_offset as int / 8 + 16 * side.claim.slot + 2;
            let told = region_after[w];
            let before = region[w];
            let read = anchor.core.read_cursor + 1;
            let cache = anchor.core.write_cache;
            let cap = g.cap();
            &&& after.core.read_cursor == read
            &&& after.core.write_cache == cache
            &&& told <= read
            &&& read == cache ==> told == read
            &&& read - told < 64
            &&& read - told == 0 || 8 * (read - told) < cap
            &&& read < cache && cache - anchor.core.read_cursor < cap && read - before < 64 && 8 * (
            read - before + 1) <= cap ==> told == before
        }),
{
    let w = side.table_offset as int / 8 + 16 * side.claim.slot + 2;
    a_batch_is_an_eighth(g.cap(), 64);
    assert(side.gate(region).slots[side.claim.slot as int].cursor == region[w]);
}

/// A push into a region is refused, and the region left alone, exactly where
/// some registered anchor has a whole ring to catch up on.
pub proof fn a_push_needs_room_and_nothing_else(
    producer: Producer,
    after: Producer,
    region: Seq<u64>,
    region_after: Seq<u64>,
    side: GateShmProducer,
    g: SlotGeometry,
    element: Seq<u64>,
    r: bool,
)
    requires
        producer.inv_shm(region, side, g),
        element.len() == g.words,
        producer.core.next_seq < MAX_CURSOR,
        push_tried(producer, after, region, region_after, side, g, element, r),
    ensures
        ({
            let slots = side.gate(region).slots;
            r <==> forall|k: int|
                0 <= k < slots.len() && (#[trigger] slots[k]).active && slots[k].cursor != u64::MAX
                    ==> region[16] - slots[k].cursor < g.cap()
        }),
        !r ==> region_after == region,
        r ==> word(region_after, OFF_WRITE_CURSOR as int) == region[16] + 1,
{
    room_is_counted_from_the_slowest(side.gate(region), 1, g.cap());
    g.lemma_element_outside(region, producer.core.next_seq as int, element);
}

} // verus!
