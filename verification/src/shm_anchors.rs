//! Byte messages in a region whose registered consumers hold the producer back:
//! the anchored byte ring over shared memory.
//!
//! Observers of such a region read it as they read a lossy byte ring.

use crate::anchored_bytes::{drained_to, BytesAnchor, BytesProducer, Msg, WriteSlot};
use crate::arith::{ring_capacity, MAX_CURSOR};
use crate::cursor::{a_batch_is_an_eighth, batch_of};
use crate::frames::{
    a_frame_fits_under_a_free_run, agree, byte_capacity, end_of, frame, framed,
    lemma_aligned_offset, lemma_frame_fits, lemma_frame_grows, lemma_no_messages, lemma_offset,
    lemma_records_fit, lemma_run_ends, lemma_run_extends, lemma_skip_padding, lemma_start, len_at,
    max_len, message_at, messages, pad_for, record, record_len, start_of, total_for, HEADER,
};
use crate::gate::{hand_over, room_is_counted_from_the_slowest, GateConsumer, GateProducer};
use crate::gate_shm::{gate_of, GateShmConsumer, GateShmProducer};
use crate::handler::{lemma_took_run, took_runs, Handler};
use crate::region::{
    read_u64, slot_word, store_u64, table_fits, word, OFF_AUX, OFF_CLOSED, OFF_INTENT,
    OFF_WRITE_CURSOR,
};
use crate::region_lanes::bytes_of;
use crate::registry::{publish_batch_bytes, MAX_PUBLISH_BATCH_BYTES};
use crate::shm_bytes::{
    bytes_fit, bytes_inv, copy_message, decode_record_shm, frontier_of, is_framed,
    lemma_counters_outside, message_published, write_declared,
};
use crate::spmc::Closed;
use vstd::prelude::*;

verus! {

/// An anchored byte ring lies in a region: the table past the counters, the
/// buffer past the table.
pub open spec fn anchored_fit(
    region: Seq<u64>,
    table_offset: int,
    max_slots: int,
    base: int,
    capacity: int,
) -> bool {
    &&& capacity >= 16
    &&& bytes_fit(region, base, capacity)
    &&& table_fits(region, table_offset, max_slots)
    &&& table_offset >= 512
    &&& table_offset / 8 + 16 * max_slots <= base
}

/// An anchored byte ring in order: its log and its gate.
pub open spec fn anchored_inv(
    region: Seq<u64>,
    table_offset: int,
    max_slots: int,
    base: int,
    capacity: int,
) -> bool {
    &&& anchored_fit(region, table_offset, max_slots, base, capacity)
    &&& bytes_inv(region, base, capacity)
    &&& gate_of(region, table_offset, max_slots).inv()
    &&& word(region, OFF_AUX as int) < capacity
}

impl BytesProducer {
    /// The producer belongs to the region.
    pub open spec fn inv_shm(&self, region: Seq<u64>, side: GateShmProducer, base: int) -> bool {
        &&& anchored_inv(
            region,
            side.table_offset as int,
            side.max_slots as int,
            base,
            self.core.cap(),
        )
        &&& self.core.inv(side.gate(region))
        &&& self.raised_starving == (word(region, OFF_AUX as int) != 0)
        &&& word(region, OFF_INTENT as int) == (if word(region, OFF_WRITE_CURSOR as int)
            > self.intent_floor {
            word(region, OFF_WRITE_CURSOR as int)
        } else {
            self.intent_floor
        })
    }

    /// What asking for `needed` bytes leaves in the starving word.
    pub open spec fn starving_after(&self, region: Seq<u64>, side: GateShmProducer, needed: int) -> int {
        if self.granted(needed) {
            0
        } else if side.gate(region).open_for(needed, self.core.cap()) {
            word(region, OFF_AUX as int) as int
        } else {
            needed
        }
    }

    /// Whether `needed` bytes are free. Where they are not, the region says so
    /// to the anchors.
    pub fn has_space_shm(
        &mut self,
        region: &mut [u64],
        side: &GateShmProducer,
        base: usize,
        needed: u64,
    ) -> (r: bool)
        requires
            old(self).inv_shm(old(region)@, *side, base as int),
            0 < needed < old(self).core.cap(),
        ensures
            r == side.gate(old(region)@).open_for(needed as int, old(self).core.cap()),
            old(self).core.asked(&final(self).core, side.gate(old(region)@), needed),
            final(region)@ == old(region)@.update(
                18,
                old(self).starving_after(old(region)@, *side, needed as int) as u64,
            ),
            final(self).intent_floor == old(self).intent_floor,
            final(self).inv_shm(final(region)@, *side, base as int),
            r == final(self).granted(needed as int),
    {
        let ghost gate = side.gate(region@);
        proof {
            assert(region@ =~= region@.update(18, region@[18]));
        }
        if crate::registry::lacks_space(
            self.core.next_seq,
            needed,
            self.core.cached_min,
            self.core.mask + 1,
        ) {
            if self.core.rescan_shm(region, side, needed) {
                return true;
            }
            if read_u64(region, OFF_AUX) != needed {
                store_u64(region, OFF_AUX, needed);
            }
            self.raised_starving = true;
            proof {
                lemma_aux_outside(old(region)@, region@, *side, base as int, self.core.cap());
            }
            return false;
        }
        if self.raised_starving {
            self.raised_starving = false;
            store_u64(region, OFF_AUX, 0);
        }
        proof {
            lemma_aux_outside(old(region)@, region@, *side, base as int, self.core.cap());
            assert forall|k: int|
                0 <= k < gate.slots.len() && crate::gate::holds_back(
                    #[trigger] gate.slots[k],
                ) implies gate.tail + needed - gate.slots[k].cursor <= self.core.cap() by {
                assert(self.core.bounded(k, gate.slots[k].cursor));
            }
        }
        true
    }

    /// Publish `msg` if the slowest anchor leaves room for its frame.
    pub fn try_push_shm(
        &mut self,
        region: &mut [u64],
        side: &GateShmProducer,
        base: usize,
        msg: &[u8],
    ) -> (r: bool)
        requires
            old(self).inv_shm(old(region)@, *side, base as int),
            msg@.len() <= max_len(old(self).core.cap()),
            word(old(region)@, OFF_WRITE_CURSOR as int) + old(self).core.cap() <= MAX_CURSOR,
        ensures
            push_tried(
                *old(self),
                *final(self),
                old(region)@,
                final(region)@,
                *side,
                base as int,
                msg@,
                r,
            ),
            final(self).inv_shm(final(region)@, *side, base as int),
    {
        match self.try_claim_shm(region, side, base, msg.len()) {
            None => false,
            Some(slot) => {
                slot.commit_shm(self, region, side, base, msg);
                true
            },
        }
    }

    /// Claim the frame of a message of `len` bytes if the slowest anchor
    /// leaves room for it.
    pub fn try_claim_shm(
        &mut self,
        region: &mut [u64],
        side: &GateShmProducer,
        base: usize,
        len: usize,
    ) -> (r: Option<WriteSlot>)
        requires
            old(self).inv_shm(old(region)@, *side, base as int),
            len <= max_len(old(self).core.cap()),
        ensures
            frame_claimed(
                *old(self),
                *final(self),
                old(region)@,
                final(region)@,
                *side,
                base as int,
                len,
                r,
            ),
            final(self).inv_shm(final(region)@, *side, base as int),
    {
        proof {
            a_frame_fits_under_a_free_run(
                self.core.next_seq as int,
                len as int,
                self.core.cap(),
            );
        }
        let (pad, total): (u64, u64) = frame(self.core.next_seq, self.core.mask, len);
        if !self.has_space_shm(region, side, base, total) {
            return None;
        }
        Some(WriteSlot { pad, len })
    }
}

/// The bytes that the frame of a message of `len` bytes takes.
pub open spec fn needed_for(region: Seq<u64>, len: int, capacity: int) -> int {
    total_for(word(region, OFF_WRITE_CURSOR as int) as int, len, capacity)
}

/// What trying to claim the frame of a message of `len` bytes comes to. The
/// starving word says whether the producer waits.
pub open spec fn frame_claimed(
    producer: BytesProducer,
    after: BytesProducer,
    region: Seq<u64>,
    region_after: Seq<u64>,
    side: GateShmProducer,
    base: int,
    len: usize,
    r: Option<WriteSlot>,
) -> bool {
    let needed = needed_for(region, len as int, producer.core.cap());
    &&& r is Some == side.gate(region).open_for(needed, producer.core.cap())
    &&& region_after == region.update(18, producer.starving_after(region, side, needed) as u64)
    &&& producer.core.asked(&after.core, side.gate(region), needed as u64)
    &&& after.intent_floor == producer.intent_floor
    &&& r matches Some(slot) ==> slot.len == len && slot.claims_shm(
        &after,
        region_after,
        side,
        base,
    )
}

/// What storing a message in a claimed frame and publishing it comes to.
pub open spec fn frame_committed(
    producer: BytesProducer,
    after: BytesProducer,
    region: Seq<u64>,
    region_after: Seq<u64>,
    base: int,
    msg: Seq<u8>,
) -> bool {
    let needed = needed_for(region, msg.len() as int, producer.core.cap());
    &&& message_published(
        region,
        region_after,
        base,
        producer.core.cap(),
        producer.intent_floor,
        msg,
    )
    &&& after == (BytesProducer {
        core: GateProducer {
            next_seq: (producer.core.next_seq + needed) as u64,
            ..producer.core
        },
        ..producer
    })
}

/// What trying to push a message comes to.
pub open spec fn push_tried(
    producer: BytesProducer,
    after: BytesProducer,
    region: Seq<u64>,
    region_after: Seq<u64>,
    side: GateShmProducer,
    base: int,
    msg: Seq<u8>,
    r: bool,
) -> bool {
    let needed = needed_for(region, msg.len() as int, producer.core.cap());
    let asked = region.update(18, producer.starving_after(region, side, needed) as u64);
    &&& r == side.gate(region).open_for(needed, producer.core.cap())
    &&& r ==> message_published(
        asked,
        region_after,
        base,
        producer.core.cap(),
        producer.intent_floor,
        msg,
    )
    &&& r ==> producer.core.spent(&after.core, side.gate(region), needed as u64)
    &&& !r ==> region_after == asked
    &&& !r ==> producer.core.asked(&after.core, side.gate(region), needed as u64)
    &&& after.intent_floor == producer.intent_floor
}

impl WriteSlot {
    /// The claim is on the producer's next frame in a region, which is
    /// granted.
    pub open spec fn claims_shm(
        &self,
        producer: &BytesProducer,
        region: Seq<u64>,
        side: GateShmProducer,
        base: int,
    ) -> bool {
        let tail = word(region, OFF_WRITE_CURSOR as int) as int;
        &&& producer.inv_shm(region, side, base)
        &&& self.len <= max_len(producer.core.cap())
        &&& self.pad == pad_for(tail, self.len as int, producer.core.cap())
        &&& producer.granted(needed_for(region, self.len as int, producer.core.cap()))
    }

    /// Write `msg`, which has the claimed length, into the claimed frame of a
    /// region and publish it.
    pub fn commit_shm(
        self,
        producer: &mut BytesProducer,
        region: &mut [u64],
        side: &GateShmProducer,
        base: usize,
        msg: &[u8],
    )
        requires
            self.claims_shm(old(producer), old(region)@, *side, base as int),
            msg@.len() == self.len,
            word(old(region)@, OFF_WRITE_CURSOR as int) + old(producer).core.cap() <= MAX_CURSOR,
        ensures
            frame_committed(
                *old(producer),
                *final(producer),
                old(region)@,
                final(region)@,
                base as int,
                msg@,
            ),
            final(producer).inv_shm(final(region)@, *side, base as int),
    {
        let ghost asked = region@;
        proof {
            a_frame_fits_under_a_free_run(
                producer.core.next_seq as int,
                self.len as int,
                producer.core.cap(),
            );
            lemma_records_fit(producer.core.cap(), self.len as int);
        }
        let total: u64 = self.pad + record_len(self.len) as u64;
        write_declared(
            region,
            base,
            producer.core.mask,
            producer.core.next_seq,
            producer.intent_floor,
            self.pad,
            total,
            msg,
        );
        proof {
            let after = region@.update(16, (producer.core.next_seq + total) as u64);
            assert forall|i: int|
                side.table_offset as int / 8 <= i < side.table_offset as int / 8 + 16
                    * side.max_slots implies #[trigger] region@[i] == asked[i] by {
                assert(after[i] == asked[i]);
            }
            assert(after[17] == asked[17]);
            assert(after[18] == asked[18]);
            assert(side.gate(region@).slots =~= side.gate(asked).slots);
        }
        producer.core.publish_shm(region, side, total);
    }
}

/// A store to the starving word leaves messages and slots alone.
proof fn lemma_aux_outside(
    before: Seq<u64>,
    after: Seq<u64>,
    side: GateShmProducer,
    base: int,
    capacity: int,
)
    requires
        anchored_inv(
            before,
            side.table_offset as int,
            side.max_slots as int,
            base,
            capacity,
        ),
        after == before.update(18, after[18]),
    ensures
        bytes_of(after, base, capacity) == bytes_of(before, base, capacity),
        frontier_of(after) == frontier_of(before),
        side.gate(after) == side.gate(before),
{
    lemma_counters_outside(before, after, base, capacity);
    assert(side.gate(after).slots =~= side.gate(before).slots);
}

/// What looking for a message of a region comes to: whether there is one, and
/// whether none will come.
pub open spec fn sought(
    anchor: BytesAnchor,
    after: BytesAnchor,
    region: Seq<u64>,
    found: Result<bool, Closed>,
) -> bool {
    let tail = word(region, OFF_WRITE_CURSOR as int);
    let waiting = anchor.core.read_cursor < tail;
    &&& after == anchor.looked_shm(tail)
    &&& match found {
        Ok(there) => there == waiting && (!there ==> word(region, OFF_CLOSED as int) == 0),
        Err(_) => !waiting && word(region, OFF_CLOSED as int) != 0,
    }
}

/// What progress does to a region: the anchor's slot says how far it is where
/// that was published and the slot is still leased to it.
pub open spec fn republished(
    anchor: BytesAnchor,
    after: BytesAnchor,
    region: Seq<u64>,
    region_after: Seq<u64>,
    side: GateShmConsumer,
) -> bool {
    region_after == (if after.core.published != anchor.core.published {
        side.with_cursor(region, after.core.published)
    } else {
        region
    })
}

impl BytesAnchor {
    /// The anchor reads this region: its cursors stand where frames or their
    /// records start. Its slot may have been retired, or leased to another
    /// handle.
    pub open spec fn placed_shm(&self, region: Seq<u64>, side: GateShmConsumer, base: int) -> bool {
        &&& anchored_fit(
            region,
            side.table_offset as int,
            side.max_slots as int,
            base,
            self.core.cap(),
        )
        &&& word(region, OFF_AUX as int) < self.core.cap()
        &&& side.fits(region)
        &&& self.core.placed(side.gate(region))
        &&& self.aligned(
            bytes_of(region, base, self.core.cap()),
            word(region, OFF_WRITE_CURSOR as int),
        )
    }

    /// The anchor belongs to the region, and its slot is leased to it.
    pub open spec fn inv_shm(&self, region: Seq<u64>, side: GateShmConsumer, base: int) -> bool {
        &&& anchored_inv(
            region,
            side.table_offset as int,
            side.max_slots as int,
            base,
            self.core.cap(),
        )
        &&& self.placed_shm(region, side, base)
        &&& side.registered(self.core, region)
    }

    /// Whether the anchor's cursors are in order and stand where frames or
    /// their records start.
    pub fn is_placed_shm(&self, region: &[u64], side: &GateShmConsumer, base: usize) -> (r: bool)
        requires
            anchored_fit(
                region@,
                side.table_offset as int,
                side.max_slots as int,
                base as int,
                self.core.cap(),
            ),
            side.fits(region@),
            ring_capacity(self.core.cap()),
        ensures
            r == self.placed_shm(region@, *side, base as int),
    {
        if !self.core.is_placed_shm(region, side) || read_u64(region, OFF_AUX) > self.core.mask {
            return false;
        }
        let cache: u64 = self.core.write_cache;
        is_framed(region, base, self.core.mask, self.core.published, cache) && is_framed(
            region,
            base,
            self.core.mask,
            self.core.read_cursor,
            cache,
        ) && is_framed(region, base, self.core.mask, cache, read_u64(region, OFF_WRITE_CURSOR))
    }

    /// The messages that the anchor will be handed, oldest first.
    pub open spec fn pending_shm(&self, region: Seq<u64>, base: int) -> Seq<Seq<u8>> {
        messages(
            bytes_of(region, base, self.core.cap()),
            self.core.read_cursor as int,
            word(region, OFF_WRITE_CURSOR as int) as int,
        )
    }

    /// The cursors after a step past the frame at the read cursor: the
    /// progress is published where a producer out of space waits for it, where
    /// the known messages are drained, or where the bound on deferred progress
    /// is reached.
    pub open spec fn stepped(&self, buf: Seq<u8>, starving: u64) -> GateConsumer {
        let p = self.core.read_cursor as int;
        let at_record = GateConsumer { read_cursor: start_of(buf, p) as u64, ..self.core };
        GateConsumer {
            read_cursor: end_of(buf, p) as u64,
            published: if at_record.publishes(
                record(len_at(buf, p)) as u64,
                self.urgent(starving),
                batch_of(self.core.cap(), MAX_PUBLISH_BATCH_BYTES as int) as u64,
            ) {
                end_of(buf, p) as u64
            } else {
                self.core.published
            },
            ..self.core
        }
    }

    /// The anchor after a look at the tail.
    pub open spec fn looked_shm(&self, tail: u64) -> BytesAnchor {
        BytesAnchor {
            core: GateConsumer {
                write_cache: if self.core.write_cache == self.core.read_cursor {
                    tail
                } else {
                    self.core.write_cache
                },
                ..self.core
            },
            ..*self
        }
    }

    /// Look for a message; `Closed` once the producer is gone and everything is
    /// consumed.
    fn seek_shm(&mut self, region: &[u64], side: &GateShmConsumer, base: usize) -> (r: Result<
        bool,
        Closed,
    >)
        requires
            old(self).placed_shm(region@, *side, base as int),
        ensures
            sought(*old(self), *final(self), region@, r),
            r == Ok::<bool, Closed>(true) ==> final(self).core.read_cursor
                < final(self).core.write_cache,
            final(self).placed_shm(region@, *side, base as int),
            old(self).inv_shm(region@, *side, base as int) ==> final(self).inv_shm(
                region@,
                *side,
                base as int,
            ),
    {
        proof {
            self.lemma_whole_run(
                bytes_of(region@, base as int, self.core.cap()),
                word(region@, OFF_WRITE_CURSOR as int),
            );
        }
        if self.core.has_item_shm(region, side) {
            return Ok(true);
        }
        if read_u64(region, OFF_CLOSED) != 0 {
            return Err(Closed);
        }
        Ok(false)
    }

    /// Step past padding and hand the record out.
    fn next_msg_shm(&mut self, region: &[u64], side: &GateShmConsumer, base: usize) -> (r: Msg)
        requires
            old(self).placed_shm(region@, *side, base as int),
            old(self).core.read_cursor < old(self).core.write_cache,
        ensures
            borrowed(*old(self), *final(self), region@, *side, base as int, r),
            old(self).inv_shm(region@, *side, base as int) ==> final(self).inv_shm(
                region@,
                *side,
                base as int,
            ),
    {
        let ghost buf = bytes_of(region@, base as int, self.core.cap());
        let ghost p = self.core.read_cursor as int;
        let ghost tail = word(region@, OFF_WRITE_CURSOR as int) as int;
        proof {
            self.lemma_whole_run(buf, tail as u64);
            lemma_frame_grows(buf, p);
            lemma_skip_padding(buf, p, self.core.write_cache as int);
            lemma_skip_padding(buf, p, tail);
            lemma_start(buf, p);
        }
        let (cursor, off, len): (u64, usize, usize) = decode_record_shm(
            region,
            base,
            self.core.mask,
            self.core.read_cursor,
        );
        proof {
            lemma_records_fit(buf.len() as int, len as int);
        }
        self.core.read_cursor = cursor;
        let r = Msg { payload: off + HEADER, len };
        proof {
            let content = r.content_shm(self, region@, base as int);
            assert forall|k: int| 0 <= k < len implies #[trigger] content[k] == message_at(
                buf,
                p,
            )[k] by {
                lemma_offset(start_of(buf, p), HEADER + k, buf.len() as int);
            }
            assert(content =~= message_at(buf, p));
        }
        r
    }

    /// Consume `amount` bytes: the record at the read cursor.
    fn advance_record_shm(
        &mut self,
        region: &mut [u64],
        side: &GateShmConsumer,
        base: usize,
        amount: u64,
    )
        requires
            old(self).placed_shm(old(region)@, *side, base as int),
            old(self).core.read_cursor < old(self).core.write_cache,
            ({
                let buf = bytes_of(old(region)@, base as int, old(self).core.cap());
                let p = old(self).core.read_cursor as int;
                start_of(buf, p) == p && amount == record(len_at(buf, p))
            }),
        ensures
            released(*old(self), *final(self), old(region)@, final(region)@, *side, base as int),
            final(self).placed_shm(final(region)@, *side, base as int),
            old(self).inv_shm(old(region)@, *side, base as int) ==> final(self).inv_shm(
                final(region)@,
                *side,
                base as int,
            ),
    {
        let ghost buf = bytes_of(region@, base as int, self.core.cap());
        let ghost p = self.core.read_cursor as int;
        let ghost tail = word(region@, OFF_WRITE_CURSOR as int) as int;
        proof {
            self.lemma_whole_run(buf, tail as u64);
            lemma_frame_grows(buf, p);
            lemma_records_fit(buf.len() as int, len_at(buf, p));
            assert(messages(buf, p, tail).drop_first() =~= messages(buf, end_of(buf, p), tail));
            assert(framed(buf, end_of(buf, p), self.core.write_cache as int));
            lemma_run_ends(buf, end_of(buf, p), self.core.write_cache as int);
        }
        let capacity: u64 = self.core.mask + 1;
        let span: u64 = read_u64(region, OFF_AUX);
        let publish_now: bool = span != 0 && self.core.write_cache.wrapping_sub(
            self.core.published,
        ) >= capacity - span;
        let batch: u64 = publish_batch_bytes(capacity);
        self.core.advance_shm(region, side, amount, publish_now, batch);
        proof {
            lemma_cursor_outside(old(region)@, region@, *side, base as int, self.core.cap());
        }
    }

    /// Consume the oldest message of a region if there is one; `Closed` once
    /// the producer is gone and everything is consumed.
    pub fn try_pop_shm(&mut self, region: &mut [u64], side: &GateShmConsumer, base: usize) -> (r:
        Result<Option<Vec<u8>>, Closed>)
        requires
            old(self).placed_shm(old(region)@, *side, base as int),
        ensures
            ({
                let tail = word(old(region)@, OFF_WRITE_CURSOR as int);
                let closed = word(old(region)@, OFF_CLOSED as int) != 0;
                let pending = old(self).pending_shm(old(region)@, base as int);
                let looked = old(self).looked_shm(tail);
                match r {
                    Ok(Some(msg)) => {
                        &&& old(self).core.read_cursor < tail
                        &&& pending.len() > 0
                        &&& msg@ == pending[0]
                        &&& final(self).pending_shm(final(region)@, base as int)
                            == pending.drop_first()
                        &&& final(self).core == looked.stepped(
                            bytes_of(old(region)@, base as int, old(self).core.cap()),
                            word(old(region)@, OFF_AUX as int),
                        )
                        &&& republished(
                            *old(self),
                            *final(self),
                            old(region)@,
                            final(region)@,
                            *side,
                        )
                    },
                    Ok(None) => {
                        &&& !closed
                        &&& old(self).core.read_cursor == tail
                        &&& final(region)@ == old(region)@
                        &&& *final(self) == looked
                    },
                    Err(_) => {
                        &&& closed
                        &&& old(self).core.read_cursor == tail
                        &&& final(region)@ == old(region)@
                        &&& *final(self) == looked
                    },
                }
            }),
            final(self).shm == old(self).shm,
            final(self).placed_shm(final(region)@, *side, base as int),
            old(self).inv_shm(old(region)@, *side, base as int) ==> final(self).inv_shm(
                final(region)@,
                *side,
                base as int,
            ),
    {
        if !self.seek_shm(region, side, base)? {
            return Ok(None);
        }
        let borrow = self.next_msg_shm(region, side, base);
        let msg = borrow.bytes_shm(self, region, side, base);
        borrow.release_shm(self, region, side, base);
        Ok(Some(msg))
    }

    /// Borrow the oldest message of a region if there is one; `Closed` once the
    /// producer is gone and everything is consumed.
    pub fn try_pop_ref_shm(&mut self, region: &[u64], side: &GateShmConsumer, base: usize) -> (r:
        Result<Option<Msg>, Closed>)
        requires
            old(self).placed_shm(region@, *side, base as int),
        ensures
            ({
                let tail = word(region@, OFF_WRITE_CURSOR as int);
                let closed = word(region@, OFF_CLOSED as int) != 0;
                let looked = old(self).looked_shm(tail);
                match r {
                    Ok(Some(msg)) => old(self).core.read_cursor < tail && borrowed(
                        looked,
                        *final(self),
                        region@,
                        *side,
                        base as int,
                        msg,
                    ) && final(self).pending_shm(region@, base as int) == old(self).pending_shm(
                        region@,
                        base as int,
                    ),
                    Ok(None) => !closed && old(self).core.read_cursor == tail && *final(self)
                        == looked,
                    Err(_) => closed && old(self).core.read_cursor == tail && *final(self)
                        == looked,
                }
            }),
            final(self).placed_shm(region@, *side, base as int),
            old(self).inv_shm(region@, *side, base as int) ==> final(self).inv_shm(
                region@,
                *side,
                base as int,
            ),
    {
        if !self.seek_shm(region, side, base)? {
            return Ok(None);
        }
        Ok(Some(self.next_msg_shm(region, side, base)))
    }

    /// Consume a batch of a region: messages until it is drained or the
    /// deferred-publish bound is reached. Each is handed to `f`, oldest first;
    /// the progress is published once, after the last. The number of messages.
    ///
    /// A message counts as consumed before `f` sees it, and where `f` unwinds
    /// the progress is published on the way out (see [`hand_over`]).
    pub fn drain_shm<H: Handler<[u8]>>(
        &mut self,
        region: &mut [u64],
        side: &GateShmConsumer,
        base: usize,
        f: H,
    ) -> (r: usize)
        requires
            old(self).placed_shm(old(region)@, *side, base as int),
            forall|m: &[u8], i: int|
                0 <= i < old(self).pending_shm(old(region)@, base as int).len() && m@ == (
                #[trigger] old(self).pending_shm(old(region)@, base as int)[i])
                    ==> #[trigger] f.accepts(m),
        ensures
            ({
                let buf = bytes_of(old(region)@, base as int, old(self).core.cap());
                let start = old(self).core.read_cursor as int;
                let tail = word(old(region)@, OFF_WRITE_CURSOR as int);
                let end = drained_to(
                    buf,
                    start,
                    tail as int,
                    start,
                    batch_of(old(self).core.cap(), MAX_PUBLISH_BATCH_BYTES as int),
                );
                &&& r == messages(buf, start, end).len()
                &&& exists|after: H| #[trigger]
                    took_runs(f, messages(buf, start, end), after) && has_resolved(after)
                &&& old(self).pending_shm(old(region)@, base as int) == messages(buf, start, end)
                    + final(self).pending_shm(final(region)@, base as int)
                &&& final(self).core == (GateConsumer {
                    read_cursor: end as u64,
                    published: if tail == start {
                        old(self).core.published
                    } else {
                        end as u64
                    },
                    write_cache: tail,
                    ..old(self).core
                })
                &&& republished(*old(self), *final(self), old(region)@, final(region)@, *side)
            }),
            final(self).shm == old(self).shm,
            final(self).placed_shm(final(region)@, *side, base as int),
            old(self).inv_shm(old(region)@, *side, base as int) ==> final(self).inv_shm(
                final(region)@,
                *side,
                base as int,
            ),
    {
        let mut f = f;
        let ghost g = f;
        let ghost pending = old(self).pending_shm(old(region)@, base as int);
        let ghost buf = bytes_of(region@, base as int, self.core.cap());
        let ghost start = self.core.read_cursor as int;
        let ghost tail = word(region@, OFF_WRITE_CURSOR as int) as int;
        let ghost batch_size = batch_of(self.core.cap(), MAX_PUBLISH_BATCH_BYTES as int);
        proof {
            self.lemma_whole_run(buf, tail as u64);
            lemma_no_messages(buf, start);
        }
        let end: u64 = self.core.refresh_shm(region, side);
        let ghost looked = *self;
        let begin: u64 = self.core.read_cursor;
        if end.wrapping_sub(begin) == 0 {
            proof {
                assert(pending =~= messages(buf, start, start) + self.pending_shm(
                    region@,
                    base as int,
                ));
                assert(took_runs(g, messages(buf, start, start), f));
            }
            return 0;
        }
        let batch: u64 = publish_batch_bytes(self.core.mask + 1);
        let mut count: usize = 0;
        proof {
            assert(messages(buf, start, tail) =~= messages(buf, start, start) + messages(
                buf,
                start,
                tail,
            ));
        }
        while end.wrapping_sub(self.core.read_cursor) != 0 && self.core.read_cursor.wrapping_sub(
            begin,
        ) < batch
            invariant
                region@ == old(region)@,
                looked.placed_shm(region@, *side, base as int),
                old(self).inv_shm(region@, *side, base as int) ==> looked.inv_shm(
                    region@,
                    *side,
                    base as int,
                ),
                looked == (BytesAnchor {
                    core: GateConsumer { write_cache: end, ..old(self).core },
                    ..*old(self)
                }),
                buf == bytes_of(region@, base as int, self.core.cap()),
                byte_capacity(buf.len() as int),
                buf.len() == self.core.cap(),
                start == old(self).core.read_cursor,
                begin == start,
                tail == word(region@, OFF_WRITE_CURSOR as int),
                end == tail,
                batch == batch_size,
                batch_size == batch_of(self.core.cap(), MAX_PUBLISH_BATCH_BYTES as int),
                framed(buf, self.core.read_cursor as int, tail),
                framed(buf, start, self.core.read_cursor as int),
                start <= self.core.read_cursor <= tail,
                self.core == (GateConsumer {
                    read_cursor: self.core.read_cursor,
                    ..looked.core
                }),
                self.shm == old(self).shm,
                pending == messages(buf, start, tail),
                forall|m: &[u8], i: int|
                    0 <= i < pending.len() && m@ == (#[trigger] pending[i])
                        ==> #[trigger] f.accepts(m),
                count == messages(buf, start, self.core.read_cursor as int).len(),
                8 * count <= self.core.read_cursor - start,
                took_runs(g, messages(buf, start, self.core.read_cursor as int), f),
                messages(buf, start, tail) == messages(buf, start, self.core.read_cursor as int)
                    + messages(buf, self.core.read_cursor as int, tail),
                drained_to(buf, start, tail, start, batch_size) == drained_to(
                    buf,
                    self.core.read_cursor as int,
                    tail,
                    start,
                    batch_size,
                ),
            decreases tail - self.core.read_cursor,
        {
            let ghost p = self.core.read_cursor as int;
            proof {
                lemma_frame_grows(buf, p);
                lemma_records_fit(buf.len() as int, len_at(buf, p));
            }
            let (cursor, off, len): (u64, usize, usize) = decode_record_shm(
                region,
                base,
                self.core.mask,
                self.core.read_cursor,
            );
            let msg = copy_message(region, base, self.core.mask, self.core.read_cursor, off, len);
            self.core.read_cursor = cursor.wrapping_add(record_len(len) as u64);
            let bytes: &[u8] = msg.as_slice();
            proof {
                assert(messages(buf, p, tail)[0] == message_at(buf, p));
                assert(pending[count as int] == message_at(buf, p));
                assert(bytes@ == pending[count as int]);
            }
            let place: Option<&mut u64> = side.place(region);
            let ghost mid = f;
            hand_over(&mut self.core, place, &mut f, bytes);
            count += 1;
            proof {
                let e = end_of(buf, p);
                assert(region@ =~= old(region)@);
                lemma_took_run(g, messages(buf, start, p), mid, bytes, f);
                assert(self.core.read_cursor == e);
                lemma_run_extends(buf, start, p, e);
                lemma_run_ends(buf, e, tail);
                assert(messages(buf, p, tail) == seq![message_at(buf, p)] + messages(buf, e, tail));
                assert(messages(buf, start, tail) =~= messages(buf, start, e) + messages(
                    buf,
                    e,
                    tail,
                ));
            }
        }
        assert(old(self).inv_shm(region@, *side, base as int) ==> side.registered(
            self.core,
            region@,
        ));
        self.core.flush_pending_shm(region, side);
        proof {
            assert(framed(buf, tail, tail));
            lemma_cursor_outside(old(region)@, region@, *side, base as int, self.core.cap());
        }
        count
    }
}

/// The anchor was handed its oldest pending message and stands at its record.
pub open spec fn borrowed(
    anchor: BytesAnchor,
    after: BytesAnchor,
    region: Seq<u64>,
    side: GateShmConsumer,
    base: int,
    msg: Msg,
) -> bool {
    let buf = bytes_of(region, base, anchor.core.cap());
    &&& after == (BytesAnchor {
        core: GateConsumer {
            read_cursor: start_of(buf, anchor.core.read_cursor as int) as u64,
            ..anchor.core
        },
        ..anchor
    })
    &&& msg.borrows_shm(&after, region, side, base)
    &&& anchor.pending_shm(region, base).len() > 0
    &&& msg.content_shm(&after, region, base) == anchor.pending_shm(region, base)[0]
    &&& after.pending_shm(region, base) == anchor.pending_shm(region, base)
}

/// What stepping past the record at the read cursor of a region comes to.
pub open spec fn released(
    anchor: BytesAnchor,
    after: BytesAnchor,
    region: Seq<u64>,
    region_after: Seq<u64>,
    side: GateShmConsumer,
    base: int,
) -> bool {
    &&& after == (BytesAnchor {
        core: anchor.stepped(
            bytes_of(region, base, anchor.core.cap()),
            word(region, OFF_AUX as int),
        ),
        ..anchor
    })
    &&& republished(anchor, after, region, region_after, side)
    &&& after.pending_shm(region_after, base) == anchor.pending_shm(region, base).drop_first()
}

impl Msg {
    /// The bytes of the message.
    pub open spec fn content_shm(&self, anchor: &BytesAnchor, region: Seq<u64>, base: int) -> Seq<
        u8,
    > {
        bytes_of(region, base, anchor.core.cap()).subrange(
            self.payload as int,
            self.payload + self.len,
        )
    }

    /// The borrow is of the record at the anchor's read cursor in a region.
    pub open spec fn borrows_shm(
        &self,
        anchor: &BytesAnchor,
        region: Seq<u64>,
        side: GateShmConsumer,
        base: int,
    ) -> bool {
        let buf = bytes_of(region, base, anchor.core.cap());
        let p = anchor.core.read_cursor as int;
        &&& anchor.placed_shm(region, side, base)
        &&& anchor.core.read_cursor < anchor.core.write_cache
        &&& start_of(buf, p) == p
        &&& self.len == len_at(buf, p)
        &&& self.payload == p % anchor.core.cap() + HEADER
        &&& self.payload + self.len <= anchor.core.cap()
        &&& self.content_shm(anchor, region, base) == message_at(buf, p)
    }

    /// A copy of the message.
    pub fn bytes_shm(
        &self,
        anchor: &BytesAnchor,
        region: &[u64],
        side: &GateShmConsumer,
        base: usize,
    ) -> (r: Vec<u8>)
        requires
            self.borrows_shm(anchor, region@, *side, base as int),
        ensures
            r@ == self.content_shm(anchor, region@, base as int),
    {
        let ghost buf = bytes_of(region@, base as int, anchor.core.cap());
        let ghost p = anchor.core.read_cursor as int;
        proof {
            lemma_aligned_offset(p, buf.len() as int);
        }
        copy_message(
            region,
            base,
            anchor.core.mask,
            anchor.core.read_cursor,
            self.payload - HEADER,
            self.len,
        )
    }

    /// Step past the message.
    pub fn release_shm(
        self,
        anchor: &mut BytesAnchor,
        region: &mut [u64],
        side: &GateShmConsumer,
        base: usize,
    )
        requires
            self.borrows_shm(old(anchor), old(region)@, *side, base as int),
        ensures
            released(*old(anchor), *final(anchor), old(region)@, final(region)@, *side, base as int),
            final(anchor).placed_shm(final(region)@, *side, base as int),
            old(anchor).inv_shm(old(region)@, *side, base as int) ==> final(anchor).inv_shm(
                final(region)@,
                *side,
                base as int,
            ),
    {
        proof {
            lemma_records_fit(anchor.core.cap(), self.len as int);
        }
        let amount: u64 = record_len(self.len) as u64;
        anchor.advance_record_shm(region, side, base, amount);
    }
}

/// A store to the cursor of a slot leaves the log alone.
proof fn lemma_cursor_outside(
    before: Seq<u64>,
    after: Seq<u64>,
    side: GateShmConsumer,
    base: int,
    capacity: int,
)
    requires
        anchored_fit(
            before,
            side.table_offset as int,
            side.max_slots as int,
            base,
            capacity,
        ),
        side.fits(before),
        after.len() == before.len(),
        forall|i: int|
            0 <= i < before.len() && i != side.cursor_word() ==> #[trigger] after[i] == before[i],
    ensures
        bytes_of(after, base, capacity) == bytes_of(before, base, capacity),
        frontier_of(after) == frontier_of(before),
        word(after, OFF_AUX as int) == word(before, OFF_AUX as int),
        side.holds_lease(after) == side.holds_lease(before),
{
    assert(bytes_of(after, base, capacity) =~= bytes_of(before, base, capacity));
}

/// A push into an anchored region reaches every anchor: what it has pending
/// grows by the message, and nothing is taken away.
pub proof fn a_push_reaches_every_anchor(
    before: Seq<u64>,
    after: Seq<u64>,
    producer: BytesProducer,
    producer_side: GateShmProducer,
    anchor: BytesAnchor,
    side: GateShmConsumer,
    base: int,
    msg: Seq<u8>,
)
    requires
        producer.inv_shm(before, producer_side, base),
        anchor.inv_shm(before, side, base),
        anchor.core.mask == producer.core.mask,
        side.table_offset == producer_side.table_offset,
        side.max_slots == producer_side.max_slots,
        msg.len() <= max_len(producer.core.cap()),
        word(before, OFF_WRITE_CURSOR as int) + producer.core.cap() <= MAX_CURSOR,
        producer_side.gate(before).open_for(
            total_for(
                word(before, OFF_WRITE_CURSOR as int) as int,
                msg.len() as int,
                producer.core.cap(),
            ),
            producer.core.cap(),
        ),
        message_published(
            before,
            after,
            base,
            producer.core.cap(),
            producer.intent_floor,
            msg,
        ),
        anchored_inv(
            after,
            side.table_offset as int,
            side.max_slots as int,
            base,
            producer.core.cap(),
        ),
    ensures
        anchor.inv_shm(after, side, base),
        anchor.pending_shm(after, base) == anchor.pending_shm(before, base).push(msg),
{
    let cap = producer.core.cap();
    let tail = word(before, OFF_WRITE_CURSOR as int) as int;
    let a = bytes_of(before, base, cap);
    let b = bytes_of(after, base, cap);
    let k = side.claim.slot as int;
    let published = anchor.core.published as int;
    let read = anchor.core.read_cursor as int;
    let cache = anchor.core.write_cache as int;
    assert(crate::gate::holds_back(side.gate(before).slots[k]));
    assert(side.gate(after).slots =~= side.gate(before).slots);
    assert(after[slot_word(
        side.table_offset as int,
        k,
        crate::region::SLOT_LEASE as int,
    )] == before[slot_word(side.table_offset as int, k, crate::region::SLOT_LEASE as int)]);
    assert(after[17] == before[17]);
    crate::frames::a_frame_round_trips(a, tail, msg);
    lemma_frame_fits(tail, msg.len() as int, cap);
    anchor.lemma_whole_run(a, tail as u64);
    assert(agree(a, b, published, tail));
    assert(agree(a, b, read, tail));
    crate::frames::lemma_run_agrees(a, b, published, cache);
    crate::frames::lemma_run_agrees(a, b, read, cache);
    crate::frames::lemma_run_agrees(a, b, cache, tail);
    crate::frames::lemma_run_agrees(a, b, read, tail);
    crate::frames::lemma_run_extends(b, cache, tail, after[16] as int);
    crate::frames::lemma_run_extends(b, read, tail, after[16] as int);
}

/// What a producer that died left of a frame that it had not committed is
/// invisible to the anchors: everything published is there to be taken.
pub proof fn a_torn_frame_is_invisible(
    producer: BytesProducer,
    side: GateShmProducer,
    anchor: BytesAnchor,
    slot: GateShmConsumer,
    base: int,
    before: Seq<u64>,
    after: Seq<u64>,
    total: int,
)
    requires
        producer.inv_shm(before, side, base),
        anchor.inv_shm(before, slot, base),
        slot.table_offset == side.table_offset,
        slot.max_slots == side.max_slots,
        anchor.core.mask == producer.core.mask,
        0 <= total,
        side.gate(before).open_for(total, producer.core.cap()),
        word(after, OFF_WRITE_CURSOR as int) == word(before, OFF_WRITE_CURSOR as int),
        crate::bytelog::touches(
            bytes_of(before, base, producer.core.cap()),
            bytes_of(after, base, producer.core.cap()),
            word(before, OFF_WRITE_CURSOR as int) as int,
            word(before, OFF_WRITE_CURSOR as int) + total,
        ),
    ensures
        anchor.pending_shm(after, base) == anchor.pending_shm(before, base),
        anchor.aligned(
            bytes_of(after, base, producer.core.cap()),
            word(after, OFF_WRITE_CURSOR as int),
        ),
{
    let cap = producer.core.cap();
    let tail = word(before, OFF_WRITE_CURSOR as int) as int;
    let a = bytes_of(before, base, cap);
    let b = bytes_of(after, base, cap);
    let k = anchor.core.slot.at();
    let published = anchor.core.published as int;
    let read = anchor.core.read_cursor as int;
    let cache = anchor.core.write_cache as int;
    assert(crate::gate::holds_back(side.gate(before).slots[k]));
    assert forall|p: int| published <= p < tail implies #[trigger] crate::frames::byte(a, p)
        == crate::frames::byte(b, p) by {
        vstd::arithmetic::div_mod::lemma_mod_bound(p, cap);
        if a[p % cap] != b[p % cap] {
            let m = choose|m: int| tail <= m < tail + total && #[trigger] (m % cap) == p % cap;
            crate::frames::lemma_distinct_positions(p, m, cap);
        }
    }
    anchor.lemma_whole_run(a, tail as u64);
    crate::frames::lemma_run_agrees(a, b, published, cache);
    crate::frames::lemma_run_agrees(a, b, read, cache);
    crate::frames::lemma_run_agrees(a, b, cache, tail);
    crate::frames::lemma_run_agrees(a, b, read, tail);
}

/// In a region, too, claiming a frame and committing a message of the claimed
/// length comes to what pushing the message comes to, and a claim is refused
/// exactly where a push is.
pub proof fn claim_and_commit_is_push(
    producer: BytesProducer,
    claimer: BytesProducer,
    committer: BytesProducer,
    before: Seq<u64>,
    asked: Seq<u64>,
    after: Seq<u64>,
    side: GateShmProducer,
    base: int,
    slot: Option<WriteSlot>,
    len: usize,
    msg: Seq<u8>,
)
    requires
        producer.inv_shm(before, side, base),
        msg.len() == len,
        len <= max_len(producer.core.cap()),
        frame_claimed(producer, claimer, before, asked, side, base, len, slot),
        if slot is Some {
            frame_committed(claimer, committer, asked, after, base, msg)
        } else {
            committer == claimer && after == asked
        },
    ensures
        push_tried(producer, committer, before, after, side, base, msg, slot is Some),
{
    let needed = needed_for(before, msg.len() as int, producer.core.cap());
    assert(producer.core.asked(&claimer.core, side.gate(before), needed as u64));
}

/// The producer is told of an anchor's progress in a region in time, and not
/// more often than need be. Once nothing known is left to read, the slot says
/// so; what it does not say is less than an eighth of the ring and less than
/// 4096 bytes; an anchor that knows of everything and holds a waiting producer
/// back answers it at once; and a message taken from the middle of a batch is
/// not told at once.
pub proof fn a_release_is_told_in_time(
    anchor: BytesAnchor,
    after: BytesAnchor,
    region: Seq<u64>,
    region_after: Seq<u64>,
    side: GateShmConsumer,
    base: int,
)
    requires
        anchor.inv_shm(region, side, base),
        anchor.core.read_cursor < anchor.core.write_cache,
        start_of(
            bytes_of(region, base, anchor.core.cap()),
            anchor.core.read_cursor as int,
        ) == anchor.core.read_cursor,
        released(anchor, after, region, region_after, side, base),
    ensures
        ({
            let buf = bytes_of(region, base, anchor.core.cap());
            let w = side.table_offset as int / 8 + 16 * side.claim.slot + 2;
            let told = region_after[w];
            let before = region[w];
            let read = end_of(buf, anchor.core.read_cursor as int);
            let cap = anchor.core.cap();
            &&& after.core.read_cursor == read
            &&& told <= read
            &&& read == anchor.core.write_cache ==> told == read
            &&& read - told < 4096
            &&& read - told == 0 || 8 * (read - told) < cap
            &&& region[18] != 0 && anchor.core.write_cache == region[16] && region[16] + region[18]
                - before > cap ==> told == read
            &&& region[18] != 0 && anchor.core.write_cache - before + region[18] >= cap ==> told
                == read
            &&& (region[18] == 0 || anchor.core.write_cache - before + region[18] < cap) && read
                < anchor.core.write_cache && read - before < 4096 && 8 * (read - before + 1) <= cap
                ==> told == before
        }),
{
    let buf = bytes_of(region, base, anchor.core.cap());
    let p = anchor.core.read_cursor as int;
    let w = side.table_offset as int / 8 + 16 * side.claim.slot + 2;
    a_batch_is_an_eighth(anchor.core.cap(), 4096);
    assert(side.gate(region).slots[side.claim.slot as int].cursor == region[w]);
    anchor.lemma_whole_run(buf, region[16]);
    lemma_frame_grows(buf, p);
    lemma_records_fit(buf.len() as int, len_at(buf, p));
    assert(framed(buf, end_of(buf, p), anchor.core.write_cache as int));
    lemma_run_ends(buf, end_of(buf, p), anchor.core.write_cache as int);
}

/// A push into a region is refused exactly where some registered anchor leaves
/// less room than the frame of the message takes; then the region says for how
/// much the producer waits.
pub proof fn a_push_needs_room_and_nothing_else(
    producer: BytesProducer,
    after: BytesProducer,
    region: Seq<u64>,
    region_after: Seq<u64>,
    side: GateShmProducer,
    base: int,
    msg: Seq<u8>,
    r: bool,
)
    requires
        producer.inv_shm(region, side, base),
        msg.len() <= max_len(producer.core.cap()),
        push_tried(producer, after, region, region_after, side, base, msg, r),
    ensures
        ({
            let cap = producer.core.cap();
            let needed = pad_for(region[16] as int, msg.len() as int, cap) + record(
                msg.len() as int,
            );
            let slots = side.gate(region).slots;
            &&& r <==> forall|k: int|
                0 <= k < slots.len() && (#[trigger] slots[k]).active && slots[k].cursor != u64::MAX
                    ==> region[16] - slots[k].cursor + needed <= cap
            &&& !r ==> region_after == region.update(18, needed as u64)
            &&& r ==> region_after[16] == region[16] + needed
        }),
{
    let cap = producer.core.cap();
    let needed = needed_for(region, msg.len() as int, cap);
    a_frame_fits_under_a_free_run(region[16] as int, msg.len() as int, cap);
    room_is_counted_from_the_slowest(side.gate(region), needed, cap);
    if !r && producer.core.known_lag() + needed <= cap {
        crate::gate::a_grant_leaves_room(producer.core, side.gate(region), needed);
    }
    if r {
        assert(crate::shm_bytes::frontier_of(region_after).tail == region_after[16]);
    }
}

} // verus!
