//! Gating over a consumer table in a region.
//!
//! The table plays the part of the heap rings' registry, and its control words
//! the part of the bitmap: only a slot whose state is active holds the producer
//! back, whatever its cursor says.

use crate::arith::{ring_capacity, MAX_CURSOR};
use crate::gate::{
    a_grant_leaves_room, advanced, holds_back, lemma_rescan_inv, lemma_rescan_tracks, stored,
    GateConsumer, GateProducer, GateView,
};
use crate::region::{
    control_at, control_is_active, lease_at, read_u64, slot_at, slot_word, state_of, store_u64,
    table_fits, table_slots, word, OFF_CLOSED, OFF_PRODUCER_LEASE, OFF_WRITE_CURSOR, SLOT_CONTROL,
    SLOT_CURSOR, SLOT_LEASE, STATE_ACTIVE,
};
use crate::registry::{
    active_in, copies_of, copy_at, guard_sentinel, guarded, lacks_space, lemma_walk_step, refreshed,
    rescan_gate, scan_slot, walked, walked_copies, GateSlot, SlotId, CHUNK_SLOTS, DETACHED,
};
use crate::table::{first_free, release_lease, with_claim, without_claim, vacate, Role, SlotClaim};
use vstd::prelude::*;

verus! {

/// A region as producer and consumers of a gating ring see it.
pub open spec fn gate_of(region: Seq<u64>, table_offset: int, max_slots: int) -> GateView {
    GateView {
        tail: word(region, OFF_WRITE_CURSOR as int),
        closed: word(region, OFF_CLOSED as int) != 0,
        slots: table_slots(region, table_offset, max_slots),
    }
}

/// Walk a consumer table for the slowest consumer. Re-reads only the slots
/// whose copy would hold the producer back.
pub fn scan_shm_table(
    region: &[u64],
    table_offset: usize,
    max_slots: usize,
    cached_cursors: &mut Vec<[u64; 64]>,
    next_seq: u64,
    needed: u64,
    capacity: u64,
) -> (r: (bool, u64))
    requires
        table_fits(region@, table_offset as int, max_slots as int),
    ensures
        walked(
            table_slots(region@, table_offset as int, max_slots as int),
            copies_of(old(cached_cursors)@),
            max_slots as int,
            next_seq,
            needed,
            capacity,
            r,
        ),
        walked_copies(
            table_slots(region@, table_offset as int, max_slots as int),
            copies_of(old(cached_cursors)@),
            copies_of(final(cached_cursors)@),
            max_slots as int,
            next_seq,
            needed,
            capacity,
        ),
        final(cached_cursors)@.len() == (if old(cached_cursors)@.len() >= (max_slots + 63) / 64 {
            old(cached_cursors)@.len() as int
        } else {
            (max_slots + 63) / 64
        }),
{
    let len: usize = region.len();
    let ghost slots = table_slots(region@, table_offset as int, max_slots as int);
    let ghost before = copies_of(cached_cursors@);
    let mut any_active: bool = false;
    let mut max_lag: u64 = 0;
    let mut slot: usize = 0;
    while slot < max_slots
        invariant
            len == region@.len(),
            slot <= max_slots,
            table_fits(region@, table_offset as int, max_slots as int),
            slots == table_slots(region@, table_offset as int, max_slots as int),
            before == copies_of(old(cached_cursors)@),
            cached_cursors@.len() == (if old(cached_cursors)@.len() >= (slot + 63) / 64 {
                old(cached_cursors)@.len() as int
            } else {
                (slot + 63) / 64
            }),
            walked(
                slots,
                before,
                slot as int,
                next_seq,
                needed,
                capacity,
                (any_active, max_lag),
            ),
            walked_copies(
                slots,
                before,
                copies_of(cached_cursors@),
                slot as int,
                next_seq,
                needed,
                capacity,
            ),
        decreases max_slots - slot,
    {
        let ci: usize = slot / CHUNK_SLOTS;
        let idx: usize = slot % CHUNK_SLOTS;
        let ghost started = copies_of(cached_cursors@);
        if cached_cursors.len() == ci {
            cached_cursors.push([next_seq.wrapping_sub(capacity); 64]);
            proof {
                let seed = next_seq.wrapping_sub(capacity);
                assert forall|k: int| 0 <= k < copies_of(cached_cursors@).len() implies #[trigger]
                    copies_of(cached_cursors@)[k] == copy_at(started, k, seed) by {
                    if k >= started.len() {
                        assert(k / 64 == ci);
                    }
                }
            }
        }
        let ghost copies = copies_of(cached_cursors@);
        let ghost report = (any_active, max_lag);
        let control_index: usize = slot_at(table_offset, slot, SLOT_CONTROL);
        let cursor_index: usize = slot_at(table_offset, slot, SLOT_CURSOR);
        let active: bool = control_is_active(region[control_index]);
        let copy: u64 = cached_cursors[ci][idx];
        let fresh: u64 = region[cursor_index];
        proof {
            assert(copies[slot as int] == copy);
        }
        match scan_slot(active, fresh, copy, next_seq, needed, capacity) {
            Some(cursor) => {
                cached_cursors[ci][idx] = cursor;
                any_active = true;
                let lag: u64 = next_seq.wrapping_sub(cursor);
                if lag > max_lag {
                    max_lag = lag;
                }
            },
            None => {},
        }
        proof {
            assert(copies_of(cached_cursors@) =~= copies.update(
                slot as int,
                refreshed(slots[slot as int], copy, next_seq, needed, capacity),
            ));
            lemma_walk_step(
                slots,
                before,
                slot as int,
                next_seq,
                needed,
                capacity,
                report,
                (any_active, max_lag),
            );
        }
        slot += 1;
    }
    (any_active, max_lag)
}

/// A gate in which every registered consumer is at most one lap behind.
pub open spec fn sound(gate: GateView, capacity: int) -> bool {
    &&& gate.inv()
    &&& forall|k: int|
        0 <= k < gate.slots.len() && holds_back(#[trigger] gate.slots[k]) ==> gate.tail
            - gate.slots[k].cursor <= capacity
}

/// Whether the table of a region is in order: no registered consumer has read
/// past what was published, and none is more than one lap behind.
pub fn is_sound(region: &[u64], table_offset: usize, max_slots: usize, capacity: u64) -> (r: bool)
    requires
        table_fits(region@, table_offset as int, max_slots as int),
    ensures
        r == sound(
            gate_of(region@, table_offset as int, max_slots as int),
            capacity as int,
        ),
{
    let ghost gate = gate_of(region@, table_offset as int, max_slots as int);
    let len: usize = region.len();
    let tail: u64 = read_u64(region, OFF_WRITE_CURSOR);
    if tail > MAX_CURSOR {
        return false;
    }
    let mut slot: usize = 0;
    while slot < max_slots
        invariant
            slot <= max_slots,
            len == region@.len(),
            table_fits(region@, table_offset as int, max_slots as int),
            gate == gate_of(region@, table_offset as int, max_slots as int),
            tail == gate.tail,
            forall|k: int|
                0 <= k < slot && holds_back(#[trigger] gate.slots[k]) ==> gate.slots[k].cursor
                    <= tail && tail - gate.slots[k].cursor <= capacity,
        decreases max_slots - slot,
    {
        let control_index: usize = slot_at(table_offset, slot, SLOT_CONTROL);
        let cursor_index: usize = slot_at(table_offset, slot, SLOT_CURSOR);
        let cursor: u64 = region[cursor_index];
        if control_is_active(region[control_index]) && cursor != DETACHED && (cursor > tail || tail
            - cursor > capacity) {
            assert(holds_back(gate.slots[slot as int]));
            return false;
        }
        slot += 1;
    }
    true
}

/// The shared-memory side of a gating producer.
#[derive(Clone, Copy)]
pub struct GateShmProducer {
    /// The token in the producer's lease.
    pub token: u64,
    /// The process that made the handle. A copy that another process inherited
    /// has the same token and must not tear anything down.
    pub owner_pid: u32,
    pub max_slots: usize,
    pub table_offset: usize,
}

impl GateShmProducer {
    /// The table lies in the region.
    pub open spec fn fits(&self, region: Seq<u64>) -> bool {
        table_fits(region, self.table_offset as int, self.max_slots as int)
    }

    /// The region as the producer sees it.
    pub open spec fn gate(&self, region: Seq<u64>) -> GateView {
        gate_of(region, self.table_offset as int, self.max_slots as int)
    }

    /// Whether the producer's lease is still held by this handle.
    pub fn owns_lease(&self, region: &[u64]) -> (r: bool)
        requires
            self.fits(region@),
        ensures
            r == (word(region@, OFF_PRODUCER_LEASE as int) == self.token),
    {
        read_u64(region, OFF_PRODUCER_LEASE) == self.token
    }

    /// Whether a process made this handle.
    pub fn owned_by(&self, pid: u32) -> (r: bool)
        ensures
            r == (pid == self.owner_pid),
    {
        pid == self.owner_pid
    }

    /// The number of active slots.
    pub fn active_count(&self, region: &[u64]) -> (r: usize)
        requires
            self.fits(region@),
        ensures
            r == active_in(self.gate(region@).slots),
    {
        let len: usize = region.len();
        let ghost slots = self.gate(region@).slots;
        let mut count: usize = 0;
        let mut slot: usize = 0;
        while slot < self.max_slots
            invariant
                len == region@.len(),
                slot <= self.max_slots,
                count <= slot,
                self.fits(region@),
                slots == self.gate(region@).slots,
                count == active_in(slots.take(slot as int)),
            decreases self.max_slots - slot,
        {
            let control_index: usize = slot_at(self.table_offset, slot, SLOT_CONTROL);
            proof {
                assert(slots.take(slot + 1).drop_last() =~= slots.take(slot as int));
                assert(slots.take(slot + 1).last() == slots[slot as int]);
            }
            if control_is_active(region[control_index]) {
                count += 1;
            }
            slot += 1;
        }
        proof {
            assert(slots.take(slot as int) =~= slots);
        }
        count
    }

    /// Let the producer's role go at the end of a handle: the ring is closed if
    /// this process made the handle and still holds the lease, and the lease is
    /// released. A copy in another process, or a handle whose role was taken,
    /// changes nothing.
    pub fn teardown(self, region: &mut [u64], pid: u32)
        requires
            self.fits(old(region)@),
        ensures
            final(region)@ == (if pid == self.owner_pid && word(
                old(region)@,
                OFF_PRODUCER_LEASE as int,
            ) == self.token {
                old(region)@.update(17, 1).update(5, 0)
            } else {
                old(region)@
            }),
    {
        if !self.owned_by(pid) {
            return;
        }
        if self.owns_lease(region) {
            store_u64(region, OFF_CLOSED, 1);
        }
        release_lease(region, Role::Producer, self.token);
    }
}

impl GateProducer {
    /// The private side of a producer that takes a region over: it resumes at
    /// the published cursor, and what it knows of the consumers comes from the
    /// table, never from a default.
    pub fn from_shm(region: &[u64], backing: &GateShmProducer, capacity: usize) -> (r: Self)
        requires
            backing.fits(region@),
            ring_capacity(capacity as int),
        ensures
            resumed(r, backing.gate(region@), capacity as int),
    {
        let next_seq: u64 = read_u64(region, OFF_WRITE_CURSOR);
        let cap: u64 = capacity as u64;
        let mut cached_cursors: Vec<[u64; 64]> = Vec::new();
        let mut cached_min: u64 = next_seq.wrapping_sub(cap);
        let ghost seed = GateProducer {
            mask: (cap - 1) as u64,
            next_seq,
            cached_min,
            cached_cursors,
        };
        let walk: (bool, u64) = scan_shm_table(
            region,
            backing.table_offset,
            backing.max_slots,
            &mut cached_cursors,
            next_seq,
            1,
            cap,
        );
        rescan_gate(next_seq, 1, cap, &mut cached_min, walk);
        let r = GateProducer { mask: cap - 1, next_seq, cached_min, cached_cursors };
        proof {
            let gate = backing.gate(region@);
            assert(seed.copies() =~= Seq::<u64>::empty());
            assert(walked(
                gate.slots,
                seed.copies(),
                gate.slots.len() as int,
                next_seq,
                1,
                cap,
                walk,
            ));
            assert(gate.slots.len() == backing.max_slots);
            assert(walked_copies(
                gate.slots,
                seed.copies(),
                r.copies(),
                gate.slots.len() as int,
                next_seq,
                1,
                cap,
            ));
            assert(seed.rescanned(&r, gate, 1));
            if capacity >= 2 && sound(gate, capacity as int) {
                assert(seed.inv(gate));
                lemma_rescan_tracks(seed, r, gate, 1);
                lemma_rescan_inv(seed, r, gate, 1);
            }
        }
        r
    }

    /// Walk the table and see whether `needed` units are free.
    pub fn rescan_shm(&mut self, region: &[u64], backing: &GateShmProducer, needed: u64) -> (r:
        bool)
        requires
            backing.fits(region@),
            old(self).tracks(backing.gate(region@)),
            backing.gate(region@).inv(),
            0 < needed < old(self).cap(),
        ensures
            old(self).rescanned(final(self), backing.gate(region@), needed),
            final(self).tracks(backing.gate(region@)),
            r == (final(self).known_lag() + needed <= final(self).cap()),
            old(self).inv(backing.gate(region@)) ==> final(self).inv(backing.gate(region@)) && r
                == backing.gate(region@).open_for(needed as int, old(self).cap()),
    {
        let capacity: u64 = self.mask + 1;
        let walk: (bool, u64) = scan_shm_table(
            region,
            backing.table_offset,
            backing.max_slots,
            &mut self.cached_cursors,
            self.next_seq,
            needed,
            capacity,
        );
        let r: bool = rescan_gate(self.next_seq, needed, capacity, &mut self.cached_min, walk);
        proof {
            let gate = backing.gate(region@);
            assert(walked(
                gate.slots,
                old(self).copies(),
                gate.slots.len() as int,
                self.next_seq,
                needed,
                capacity,
                walk,
            ));
            lemma_rescan_tracks(*old(self), *self, gate, needed);
            if old(self).inv(gate) {
                lemma_rescan_inv(*old(self), *self, gate, needed);
            }
        }
        r
    }

    /// Whether `needed` units are free.
    pub fn has_space_shm(&mut self, region: &[u64], backing: &GateShmProducer, needed: u64) -> (r:
        bool)
        requires
            backing.fits(region@),
            old(self).inv(backing.gate(region@)),
            0 < needed < old(self).cap(),
        ensures
            old(self).asked(final(self), backing.gate(region@), needed),
            r == (final(self).known_lag() + needed <= final(self).cap()),
            r == backing.gate(region@).open_for(needed as int, old(self).cap()),
            final(self).inv(backing.gate(region@)),
    {
        if !lacks_space(self.next_seq, needed, self.cached_min, self.mask + 1) {
            proof {
                a_grant_leaves_room(*self, backing.gate(region@), needed as int);
            }
            return true;
        }
        self.rescan_shm(region, backing, needed)
    }

    /// Publish `amount` units that were granted.
    pub fn publish_shm(&mut self, region: &mut [u64], backing: &GateShmProducer, amount: u64)
        requires
            backing.fits(old(region)@),
            old(self).inv(backing.gate(old(region)@)),
            old(self).known_lag() + amount <= old(self).cap(),
            old(self).next_seq + amount <= MAX_CURSOR,
        ensures
            *final(self) == (GateProducer {
                next_seq: (old(self).next_seq + amount) as u64,
                ..*old(self)
            }),
            final(region)@ == old(region)@.update(16, final(self).next_seq),
            advanced(
                backing.gate(old(region)@),
                backing.gate(final(region)@),
                amount as int,
            ),
            final(self).inv(backing.gate(final(region)@)),
    {
        self.next_seq = self.next_seq.wrapping_add(amount);
        store_u64(region, OFF_WRITE_CURSOR, self.next_seq);
        proof {
            let before = backing.gate(old(region)@);
            let after = backing.gate(region@);
            assert(after.slots =~= before.slots);
            crate::gate::lemma_publish_inv(*old(self), *self, before, after, amount);
        }
    }
}

/// A producer that resumes at the published cursor of a region, with what a
/// walk over the consumers told it. Where no consumer is more than one lap
/// behind, what it knows is in order.
pub open spec fn resumed(producer: GateProducer, gate: GateView, capacity: int) -> bool {
    let cap = capacity as u64;
    let none = Seq::<u64>::empty();
    let n = gate.slots.len() as int;
    &&& producer.mask == capacity - 1
    &&& producer.next_seq == gate.tail
    &&& exists|report: (bool, u64)| #[trigger]
        walked(gate.slots, none, n, gate.tail, 1, cap, report) && producer.cached_min
            == gate.tail.wrapping_sub(
            if report.0 {
                report.1
            } else {
                1
            },
        )
    &&& walked_copies(gate.slots, none, producer.copies(), n, gate.tail, 1, cap)
    &&& producer.cached_cursors@.len() == (n + 63) / 64
    &&& capacity >= 2 && sound(gate, capacity) ==> producer.inv(gate)
}

/// The shared-memory side of a gating consumer.
#[derive(Clone, Copy)]
pub struct GateShmConsumer {
    pub claim: SlotClaim,
    /// The process that made the handle. A copy that another process inherited
    /// has the same token and must not tear anything down.
    pub owner_pid: u32,
    pub max_slots: usize,
    pub table_offset: usize,
}

impl GateShmConsumer {
    /// The table lies in the region, and the slot in the table.
    pub open spec fn fits(&self, region: Seq<u64>) -> bool {
        &&& table_fits(region, self.table_offset as int, self.max_slots as int)
        &&& self.claim.slot < self.max_slots
    }

    /// The region as the consumer sees it.
    pub open spec fn gate(&self, region: Seq<u64>) -> GateView {
        gate_of(region, self.table_offset as int, self.max_slots as int)
    }

    /// The slot is still leased to this handle.
    pub open spec fn holds_lease(&self, region: Seq<u64>) -> bool {
        lease_at(region, self.table_offset as int, self.claim.slot as int) == self.claim.token
    }

    /// The slot is leased to this handle and takes part in gating with the
    /// cursor that the consumer published.
    pub open spec fn registered(&self, consumer: GateConsumer, region: Seq<u64>) -> bool {
        &&& self.holds_lease(region)
        &&& consumer.slot.at() == self.claim.slot
        &&& consumer.inv(self.gate(region))
    }

    /// Where the slot's cursor stands.
    pub open spec fn cursor_word(&self) -> int {
        slot_word(self.table_offset as int, self.claim.slot as int, SLOT_CURSOR as int)
    }

    /// The region after a cursor was published: stored in the slot, unless the
    /// slot is no longer leased to this handle.
    pub open spec fn with_cursor(&self, region: Seq<u64>, cursor: u64) -> Seq<u64> {
        if self.holds_lease(region) {
            region.update(self.cursor_word(), cursor)
        } else {
            region
        }
    }

    /// The shared-memory side of a consumer that claimed a slot.
    pub fn new(claim: SlotClaim, owner_pid: u32, max_slots: usize, table_offset: usize) -> (r: Self)
        ensures
            r == (GateShmConsumer { claim, owner_pid, max_slots, table_offset }),
    {
        GateShmConsumer { claim, owner_pid, max_slots, table_offset }
    }

    /// The table slot.
    pub fn slot(&self) -> (r: usize)
        ensures
            r == self.claim.slot,
    {
        self.claim.slot
    }

    /// The epoch at which the slot was claimed.
    pub fn epoch(&self) -> (r: u32)
        ensures
            r == self.claim.epoch,
    {
        self.claim.epoch
    }

    /// Whether the slot is still leased to this handle. A slot that was retired
    /// still is; one of a table that was reset is not.
    pub fn owns_slot(&self, region: &[u64]) -> (r: bool)
        requires
            self.fits(region@),
        ensures
            r == self.holds_lease(region@),
    {
        let len: usize = region.len();
        let at: usize = slot_at(self.table_offset, self.claim.slot, SLOT_LEASE);
        region[at] == self.claim.token
    }

    /// Where the slot's cursor stands, unless the slot is no longer leased to
    /// this handle.
    pub fn place<'a>(&self, region: &'a mut [u64]) -> (r: Option<&'a mut u64>)
        requires
            self.fits(old(region)@),
        ensures
            r is Some == self.holds_lease(old(region)@),
            match r {
                Some(cursor) => *cursor == old(region)@[self.cursor_word()] && final(region)@
                    == old(region)@.update(self.cursor_word(), *final(cursor)),
                None => final(region)@ == old(region)@,
            },
    {
        if !self.owns_slot(region) {
            return None;
        }
        let len: usize = region.len();
        let at: usize = slot_at(self.table_offset, self.claim.slot, SLOT_CURSOR);
        Some(&mut region[at])
    }

    /// Whether a process made this handle.
    pub fn owned_by(&self, pid: u32) -> (r: bool)
        ensures
            r == (pid == self.owner_pid),
    {
        pid == self.owner_pid
    }

    /// Give the slot back at the end of a handle: free under the same epoch,
    /// detached, without a lease. A copy in another process, or a handle whose
    /// slot is no longer leased to it, changes nothing; a retired slot stays
    /// retired.
    pub fn teardown(self, region: &mut [u64], pid: u32)
        requires
            self.fits(old(region)@),
        ensures
            final(region)@ == (if pid == self.owner_pid && self.holds_lease(old(region)@) {
                without_claim(old(region)@, self.table_offset as int, self.claim)
            } else {
                old(region)@
            }),
    {
        if !self.owned_by(pid) || !self.owns_slot(region) {
            return;
        }
        vacate(region, self.table_offset, self.max_slots, &self.claim);
    }
}

/// The position of a table slot in the consumers' numbering.
pub open spec fn table_slot(slot: int) -> SlotId {
    SlotId { chunk: (slot / 64) as usize, slot_idx: (slot % 64) as usize }
}

impl GateConsumer {
    /// The private side of a consumer of a region that reads from
    /// `read_cursor` on.
    pub fn from_shm(claim: &SlotClaim, capacity: usize, read_cursor: u64) -> (r: Self)
        requires
            ring_capacity(capacity as int),
        ensures
            r == (GateConsumer {
                mask: (capacity - 1) as u64,
                slot: table_slot(claim.slot as int),
                read_cursor,
                published: guarded(read_cursor),
                write_cache: read_cursor,
            }),
            r.slot.at() == claim.slot,
    {
        GateConsumer {
            mask: (capacity - 1) as u64,
            slot: SlotId { chunk: claim.slot / CHUNK_SLOTS, slot_idx: claim.slot % CHUNK_SLOTS },
            read_cursor,
            published: guard_sentinel(read_cursor),
            write_cache: read_cursor,
        }
    }

    /// Whether the cursors are in order.
    pub fn is_placed_shm(&self, region: &[u64], backing: &GateShmConsumer) -> (r: bool)
        requires
            backing.fits(region@),
            ring_capacity(self.cap()),
        ensures
            r == self.placed(backing.gate(region@)),
    {
        let tail: u64 = read_u64(region, OFF_WRITE_CURSOR);
        tail <= MAX_CURSOR && self.published <= self.read_cursor && self.read_cursor
            <= self.write_cache && self.write_cache <= tail
    }

    /// Re-read the producer's cursor.
    pub fn refresh_shm(&mut self, region: &[u64], backing: &GateShmConsumer) -> (r: u64)
        requires
            backing.fits(region@),
            old(self).placed(backing.gate(region@)),
        ensures
            r == word(region@, OFF_WRITE_CURSOR as int),
            *final(self) == (GateConsumer { write_cache: r, ..*old(self) }),
            final(self).placed(backing.gate(region@)),
            old(self).inv(backing.gate(region@)) ==> final(self).inv(backing.gate(region@)),
    {
        self.write_cache = read_u64(region, OFF_WRITE_CURSOR);
        self.write_cache
    }

    /// Whether there is something to read. Re-reads the producer's cursor
    /// only where the copy says no.
    pub fn has_item_shm(&mut self, region: &[u64], backing: &GateShmConsumer) -> (r: bool)
        requires
            backing.fits(region@),
            old(self).placed(backing.gate(region@)),
        ensures
            r == (old(self).unread(backing.gate(region@)) > 0),
            *final(self) == (GateConsumer {
                write_cache: if old(self).write_cache == old(self).read_cursor {
                    word(region@, OFF_WRITE_CURSOR as int)
                } else {
                    old(self).write_cache
                },
                ..*old(self)
            }),
            final(self).placed(backing.gate(region@)),
            old(self).inv(backing.gate(region@)) ==> final(self).inv(backing.gate(region@)),
            r == (final(self).read_cursor < final(self).write_cache),
    {
        if self.available_cached() == 0 {
            self.refresh_shm(region, backing);
            return self.available_cached() != 0;
        }
        true
    }

    /// Consume `amount` units, and publish the read cursor where `publish_now`
    /// says so, where the known units are drained, or where `batch` units are
    /// unpublished. A handle whose slot is no longer leased to it goes on
    /// without storing anything.
    pub fn advance_shm(
        &mut self,
        region: &mut [u64],
        backing: &GateShmConsumer,
        amount: u64,
        publish_now: bool,
        batch: u64,
    )
        requires
            backing.fits(old(region)@),
            old(self).placed(backing.gate(old(region)@)),
            amount <= old(self).write_cache - old(self).read_cursor,
        ensures
            *final(self) == (GateConsumer {
                read_cursor: (old(self).read_cursor + amount) as u64,
                published: if old(self).publishes(amount, publish_now, batch) {
                    (old(self).read_cursor + amount) as u64
                } else {
                    old(self).published
                },
                ..*old(self)
            }),
            final(region)@ == (if old(self).publishes(amount, publish_now, batch) {
                backing.with_cursor(old(region)@, final(self).published)
            } else {
                old(region)@
            }),
            kept(*old(self), *final(self), old(region)@, final(region)@, *backing),
    {
        self.read_cursor = self.read_cursor.wrapping_add(amount);
        if publish_now || self.read_cursor == self.write_cache || self.read_cursor.wrapping_sub(
            self.published,
        ) >= batch {
            self.flush_shm(region, backing);
        } else {
            proof {
                lemma_kept(*old(self), *self, region@, region@, *backing);
            }
        }
    }

    /// Publish the read cursor, unless the slot is no longer leased to this
    /// handle.
    pub fn flush_shm(&mut self, region: &mut [u64], backing: &GateShmConsumer)
        requires
            backing.fits(old(region)@),
        ensures
            *final(self) == (GateConsumer { published: old(self).read_cursor, ..*old(self) }),
            final(region)@ == backing.with_cursor(old(region)@, guarded(old(self).read_cursor)),
            old(self).placed(backing.gate(old(region)@)) ==> kept(
                *old(self),
                *final(self),
                old(region)@,
                final(region)@,
                *backing,
            ),
    {
        if backing.owns_slot(region) {
            let len: usize = region.len();
            let at: usize = slot_at(backing.table_offset, backing.claim.slot, SLOT_CURSOR);
            region[at] = guard_sentinel(self.read_cursor);
        }
        self.published = self.read_cursor;
        proof {
            if old(self).placed(backing.gate(old(region)@)) {
                lemma_kept(*old(self), *self, old(region)@, region@, *backing);
            }
        }
    }

    /// Publish the read cursor if it moved since the last time.
    pub fn flush_pending_shm(&mut self, region: &mut [u64], backing: &GateShmConsumer)
        requires
            backing.fits(old(region)@),
        ensures
            *final(self) == (GateConsumer { published: old(self).read_cursor, ..*old(self) }),
            final(region)@ == (if old(self).read_cursor != old(self).published {
                backing.with_cursor(old(region)@, guarded(old(self).read_cursor))
            } else {
                old(region)@
            }),
            old(self).placed(backing.gate(old(region)@)) ==> kept(
                *old(self),
                *final(self),
                old(region)@,
                final(region)@,
                *backing,
            ),
    {
        if self.read_cursor != self.published {
            self.flush_shm(region, backing);
        } else {
            proof {
                if self.placed(backing.gate(region@)) {
                    lemma_kept(*old(self), *self, region@, region@, *backing);
                }
            }
        }
    }
}

/// A consumer that moved forward over a region: its cursors are in order, the
/// lease is as it was, and a consumer that took part in gating still does,
/// with the cursor that it published last; nothing but that cursor changed.
pub open spec fn kept(
    before: GateConsumer,
    after: GateConsumer,
    region: Seq<u64>,
    region_after: Seq<u64>,
    backing: GateShmConsumer,
) -> bool {
    &&& after.placed(backing.gate(region_after))
    &&& region_after.len() == region.len()
    &&& forall|i: int|
        0 <= i < region.len() && i != backing.cursor_word() ==> #[trigger] region_after[i]
            == region[i]
    &&& backing.holds_lease(region_after) == backing.holds_lease(region)
    &&& !backing.holds_lease(region) ==> region_after == region
    &&& backing.registered(before, region) ==> backing.registered(after, region_after)
    &&& backing.registered(before, region) ==> stored(
        backing.gate(region),
        backing.gate(region_after),
        backing.claim.slot as int,
        GateSlot { active: true, cursor: after.published },
    )
}

proof fn lemma_kept(
    before: GateConsumer,
    after: GateConsumer,
    region: Seq<u64>,
    region_after: Seq<u64>,
    backing: GateShmConsumer,
)
    requires
        backing.fits(region),
        before.placed(backing.gate(region)),
        before.read_cursor <= after.read_cursor <= after.write_cache,
        after.write_cache == before.write_cache,
        after.slot == before.slot,
        after.mask == before.mask,
        region_after == region && after.published == before.published || region_after
            == backing.with_cursor(region, after.published) && after.published
            == after.read_cursor,
    ensures
        kept(before, after, region, region_after, backing),
{
    let gate = backing.gate(region);
    let gate_after = backing.gate(region_after);
    let k = backing.claim.slot as int;
    if backing.registered(before, region) {
        assert(gate_after.slots =~= gate.slots.update(
            k,
            GateSlot { active: true, cursor: after.published },
        ));
        assert forall|j: int|
            0 <= j < gate_after.slots.len() && holds_back(
                #[trigger] gate_after.slots[j],
            ) implies gate_after.slots[j].cursor <= gate_after.tail by {
            if j != k {
                assert(holds_back(gate.slots[j]));
            }
        }
    }
}

/// A claim in a table keeps the producer going and takes nothing away from the
/// consumers of other slots; the claimant is handed what is published from now
/// on.
pub proof fn a_claim_keeps_everyone(
    producer: GateProducer,
    other: GateConsumer,
    region: Seq<u64>,
    table_offset: int,
    max_slots: int,
    claim: SlotClaim,
    capacity: usize,
)
    requires
        table_fits(region, table_offset, max_slots),
        claim.slot < max_slots,
        first_free(region, table_offset, max_slots, claim.slot as int),
        claim.joined == word(region, OFF_WRITE_CURSOR as int),
        ring_capacity(capacity as int),
        gate_of(region, table_offset, max_slots).inv(),
    ensures
        ({
            let before = gate_of(region, table_offset, max_slots);
            let after = gate_of(with_claim(region, table_offset, claim), table_offset, max_slots);
            let joiner = GateConsumer {
                mask: (capacity - 1) as u64,
                slot: table_slot(claim.slot as int),
                read_cursor: claim.joined,
                published: guarded(claim.joined),
                write_cache: claim.joined,
            };
            &&& stored(
                before,
                after,
                claim.slot as int,
                GateSlot { active: true, cursor: before.tail },
            )
            &&& joiner.inv(after)
            &&& joiner.unread(after) == 0
            &&& producer.inv(before) ==> producer.inv(after)
            &&& other.inv(before) ==> other.slot.at() != claim.slot && other.inv(after)
                && other.unread(after) == other.unread(before)
        }),
{
    let before = gate_of(region, table_offset, max_slots);
    let after = gate_of(with_claim(region, table_offset, claim), table_offset, max_slots);
    let k = claim.slot as int;
    assert(after.slots =~= before.slots.update(
        k,
        GateSlot { active: true, cursor: before.tail },
    ));
    assert(!before.slots[k].active);
    assert forall|j: int| 0 <= j < after.slots.len() && holds_back(#[trigger] after.slots[j]) implies
        after.slots[j].cursor <= after.tail by {
        if j != k {
            assert(holds_back(before.slots[j]));
        }
    }
    if producer.inv(before) {
        assert forall|j: int|
            0 <= j < after.slots.len() && holds_back(#[trigger] after.slots[j]) implies
            producer.bounded(j, after.slots[j].cursor) && after.tail - after.slots[j].cursor
            <= producer.cap() by {
            if j != k {
                assert(holds_back(before.slots[j]));
            }
        }
    }
}

/// A slot that is let go, or retired, no longer holds the producer back.
pub proof fn a_slot_that_is_not_active_never_gates(
    region: Seq<u64>,
    table_offset: int,
    max_slots: int,
    slot: int,
)
    requires
        table_fits(region, table_offset, max_slots),
        0 <= slot < max_slots,
        state_of(control_at(region, table_offset, slot)) != STATE_ACTIVE,
    ensures
        !holds_back(gate_of(region, table_offset, max_slots).slots[slot]),
{
}

} // verus!
