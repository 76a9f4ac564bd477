//! The gating registry: where consumers that hold the producer back publish
//! their read cursors, and how the producer finds the slowest of them.
//!
//! The registry is a list of chunks of 64 slots. A slot takes part in gating
//! while its bit is set in the chunk's bitmap; the cursor value [`DETACHED`]
//! is a second line of defence under the bitmap. The producer keeps a private
//! copy of every cursor it has seen. Cursors only grow, so a copy is a lower
//! bound for ever, and a rescan re-reads only those slots whose copy would
//! hold the producer back.

use crate::arith::lag;
use crate::cursor::{batch_of, publish_batch};
use vstd::prelude::*;

verus! {

/// The cursor of a slot that no consumer owns.
pub const DETACHED: u64 = u64::MAX;

/// Slots in a chunk: one bitmap word.
pub const CHUNK_SLOTS: usize = 64;

/// The most elements of consumed progress that a consumer defers.
pub const MAX_PUBLISH_BATCH_ELEMS: usize = 64;

/// The most bytes of consumed progress that a consumer defers.
pub const MAX_PUBLISH_BATCH_BYTES: usize = 4096;

/// The deferred-publish bound of an element ring.
pub fn publish_batch_elems(capacity: u64) -> (batch: u64)
    requires
        capacity <= usize::MAX,
    ensures
        batch == batch_of(capacity as int, MAX_PUBLISH_BATCH_ELEMS as int),
        1 <= batch <= MAX_PUBLISH_BATCH_ELEMS,
{
    publish_batch(capacity as usize, MAX_PUBLISH_BATCH_ELEMS) as u64
}

/// The deferred-publish bound of a byte ring.
pub fn publish_batch_bytes(capacity: u64) -> (batch: u64)
    requires
        capacity <= usize::MAX,
    ensures
        batch == batch_of(capacity as int, MAX_PUBLISH_BATCH_BYTES as int),
        1 <= batch <= MAX_PUBLISH_BATCH_BYTES,
{
    publish_batch(capacity as usize, MAX_PUBLISH_BATCH_BYTES) as u64
}

/// Writing `needed` more units past `write` would overrun a ring of
/// `capacity` units whose slowest consumer has read up to `read`.
pub open spec fn gated(write: u64, needed: u64, read: u64, capacity: u64) -> bool {
    lag(write.wrapping_add(needed), read) > capacity
}

/// Would writing `needed` more units overrun the consumer at `read`?
pub fn lacks_space(write: u64, needed: u64, read: u64, capacity: u64) -> (r: bool)
    ensures
        r == gated(write, needed, read, capacity),
{
    write.wrapping_add(needed).wrapping_sub(read) > capacity
}

/// The value that a slot holds for `cursor`: the cursor itself, except that
/// the sentinel is never published.
pub open spec fn guarded(cursor: u64) -> u64 {
    if cursor == DETACHED {
        (DETACHED - 1) as u64
    } else {
        cursor
    }
}

/// Keep a published cursor apart from the sentinel. One unit less only holds
/// the producer back more.
pub fn guard_sentinel(cursor: u64) -> (r: u64)
    ensures
        r == guarded(cursor),
        r != DETACHED,
    opens_invariants none
    no_unwind
{
    if cursor == DETACHED {
        cursor - 1
    } else {
        cursor
    }
}

/// One consumer slot as the producer sees it.
pub struct GateSlot {
    pub active: bool,
    pub cursor: u64,
}

/// A slot that a joining consumer may take: its bit is clear, and the detach
/// that cleared it is complete.
pub open spec fn vacant(slot: GateSlot) -> bool {
    !slot.active && slot.cursor == DETACHED
}

/// Whether bit `i` of a bitmap is set.
pub open spec fn bit(bitmap: u64, i: int) -> bool {
    (bitmap >> (i as u64)) & 1 == 1
}

/// Sixty-four consumer slots: a bitmap of those that take part, and their
/// cursors.
pub struct Chunk {
    pub bitmap: u64,
    pub slots: [u64; 64],
}

impl Chunk {
    /// The slots of this chunk.
    pub open spec fn view(&self) -> Seq<GateSlot> {
        Seq::new(
            CHUNK_SLOTS as nat,
            |i: int| GateSlot { active: bit(self.bitmap, i), cursor: self.slots@[i] },
        )
    }

    /// A chunk of vacant slots.
    pub fn new() -> (r: Self)
        ensures
            forall|i: int| 0 <= i < CHUNK_SLOTS ==> vacant(#[trigger] r@[i]),
    {
        let r = Chunk { bitmap: 0, slots: [DETACHED; 64] };
        proof {
            assert(forall|j: u64| j < 64 ==> #[trigger] (0u64 >> j) & 1 == 0) by (bit_vector);
        }
        r
    }

    /// Whether slot `slot_idx` takes part in gating.
    pub fn is_active(&self, slot_idx: usize) -> (r: bool)
        requires
            slot_idx < CHUNK_SLOTS,
        ensures
            r == self@[slot_idx as int].active,
    {
        (self.bitmap >> (slot_idx as u64)) & 1 == 1
    }

    /// Store a cursor.
    pub fn store(&mut self, slot_idx: usize, cursor: u64)
        requires
            slot_idx < CHUNK_SLOTS,
        ensures
            final(self)@ == old(self)@.update(
                slot_idx as int,
                GateSlot { cursor, ..old(self)@[slot_idx as int] },
            ),
    {
        self.slots[slot_idx] = cursor;
        proof {
            assert(self@ =~= old(self)@.update(
                slot_idx as int,
                GateSlot { cursor, ..old(self)@[slot_idx as int] },
            ));
        }
    }

    /// Set the bit of a slot.
    pub fn activate(&mut self, slot_idx: usize)
        requires
            slot_idx < CHUNK_SLOTS,
        ensures
            final(self)@ == old(self)@.update(
                slot_idx as int,
                GateSlot { active: true, ..old(self)@[slot_idx as int] },
            ),
    {
        let bitmap: u64 = self.bitmap;
        let shift: u64 = slot_idx as u64;
        proof {
            assert(forall|j: u64|
                j < 64 ==> (#[trigger] ((bitmap | (1u64 << shift)) >> j) & 1 == 1) == (j == shift
                    || (bitmap >> j) & 1 == 1)) by (bit_vector)
                requires
                    shift < 64,
            ;
        }
        self.bitmap = bitmap | (1u64 << shift);
        proof {
            assert(self@ =~= old(self)@.update(
                slot_idx as int,
                GateSlot { active: true, ..old(self)@[slot_idx as int] },
            ));
        }
    }

    /// Clear the bit of a slot. The departing consumer has stored the
    /// sentinel before.
    pub fn deactivate(&mut self, slot_idx: usize)
        requires
            slot_idx < CHUNK_SLOTS,
        ensures
            final(self)@ == old(self)@.update(
                slot_idx as int,
                GateSlot { active: false, ..old(self)@[slot_idx as int] },
            ),
    {
        let bitmap: u64 = self.bitmap;
        let shift: u64 = slot_idx as u64;
        proof {
            assert(forall|j: u64|
                j < 64 ==> (#[trigger] ((bitmap & !(1u64 << shift)) >> j) & 1 == 1) == (j != shift
                    && (bitmap >> j) & 1 == 1)) by (bit_vector)
                requires
                    shift < 64,
            ;
        }
        self.bitmap = bitmap & !(1u64 << shift);
        proof {
            assert(self@ =~= old(self)@.update(
                slot_idx as int,
                GateSlot { active: false, ..old(self)@[slot_idx as int] },
            ));
        }
    }
}

/// The coordinates of a slot.
#[derive(Clone, Copy)]
pub struct SlotId {
    pub chunk: usize,
    pub slot_idx: usize,
}

impl SlotId {
    /// The position of the slot in the registry as a whole.
    pub open spec fn at(&self) -> int {
        self.chunk * CHUNK_SLOTS + self.slot_idx
    }
}

/// A freshly registered consumer slot.
pub struct JoinedSlot {
    pub slot: SlotId,
    /// Only what is published after this cursor is seen.
    pub joined: u64,
    /// What the slot holds for `joined`.
    pub published: u64,
}

/// The list of chunks.
pub struct Registry {
    pub chunks: Vec<Chunk>,
}

/// The slots of a list of chunks, in order.
pub open spec fn slots_of(chunks: Seq<Chunk>) -> Seq<GateSlot> {
    Seq::new(
        CHUNK_SLOTS as nat * chunks.len(),
        |k: int| chunks[k / CHUNK_SLOTS as int]@[k % CHUNK_SLOTS as int],
    )
}

/// The number of slots that take part in gating.
pub open spec fn active_in(slots: Seq<GateSlot>) -> nat
    decreases slots.len(),
{
    if slots.len() == 0 {
        0
    } else {
        active_in(slots.drop_last()) + if slots.last().active {
            1nat
        } else {
            0nat
        }
    }
}

/// `k` is the first vacant slot, or the end where there is none.
pub open spec fn first_vacant(slots: Seq<GateSlot>, k: int) -> bool {
    &&& 0 <= k <= slots.len()
    &&& k < slots.len() ==> vacant(slots[k])
    &&& forall|j: int| 0 <= j < k ==> !vacant(#[trigger] slots[j])
}

/// The registry with room for slot `k`: where `k` is its end, one more chunk
/// of vacant slots.
pub open spec fn with_room(slots: Seq<GateSlot>, k: int) -> Seq<GateSlot> {
    if k < slots.len() {
        slots
    } else {
        slots + Seq::new(
            CHUNK_SLOTS as nat,
            |i: int| GateSlot { active: false, cursor: DETACHED },
        )
    }
}

impl Registry {
    /// The slots, in order.
    pub open spec fn view(&self) -> Seq<GateSlot> {
        slots_of(self.chunks@)
    }

    /// There is always a first chunk.
    pub open spec fn inv(&self) -> bool {
        self.chunks@.len() >= 1
    }

    /// Whether a slot exists.
    pub open spec fn has(&self, slot: SlotId) -> bool {
        slot.chunk < self.chunks@.len() && slot.slot_idx < CHUNK_SLOTS
    }

    /// A registry of one chunk of vacant slots.
    pub fn new() -> (r: Self)
        ensures
            r.inv(),
            r@ == Seq::new(
                CHUNK_SLOTS as nat,
                |i: int| GateSlot { active: false, cursor: DETACHED },
            ),
    {
        let mut chunks: Vec<Chunk> = Vec::new();
        chunks.push(Chunk::new());
        let r = Registry { chunks };
        proof {
            assert(r@ =~= Seq::new(
                CHUNK_SLOTS as nat,
                |i: int| GateSlot { active: false, cursor: DETACHED },
            ));
        }
        r
    }

    /// Store a cursor.
    pub fn store(&mut self, slot: SlotId, cursor: u64)
        requires
            old(self).has(slot),
        ensures
            final(self)@ == old(self)@.update(
                slot.at(),
                GateSlot { cursor, ..old(self)@[slot.at()] },
            ),
            final(self).chunks@.len() == old(self).chunks@.len(),
    {
        self.chunks[slot.chunk].store(slot.slot_idx, cursor);
        proof {
            assert(self@ =~= old(self)@.update(
                slot.at(),
                GateSlot { cursor, ..old(self)@[slot.at()] },
            ));
        }
    }

    /// Where the cursor of a slot stands.
    pub fn place(&mut self, slot: SlotId) -> (r: &mut u64)
        requires
            old(self).has(slot),
        ensures
            *r == old(self)@[slot.at()].cursor,
            final(self)@ =~= old(self)@.update(
                slot.at(),
                GateSlot { cursor: *final(r), ..old(self)@[slot.at()] },
            ),
            final(self).chunks@.len() == old(self).chunks@.len(),
    {
        &mut self.chunks[slot.chunk].slots[slot.slot_idx]
    }

    /// Let a slot take part in gating.
    pub fn activate(&mut self, slot: SlotId)
        requires
            old(self).has(slot),
        ensures
            final(self)@ == old(self)@.update(
                slot.at(),
                GateSlot { active: true, ..old(self)@[slot.at()] },
            ),
            final(self).chunks@.len() == old(self).chunks@.len(),
    {
        self.chunks[slot.chunk].activate(slot.slot_idx);
        proof {
            assert(self@ =~= old(self)@.update(
                slot.at(),
                GateSlot { active: true, ..old(self)@[slot.at()] },
            ));
        }
    }

    /// Take a slot out of gating.
    pub fn deactivate(&mut self, slot: SlotId)
        requires
            old(self).has(slot),
        ensures
            final(self)@ == old(self)@.update(
                slot.at(),
                GateSlot { active: false, ..old(self)@[slot.at()] },
            ),
            final(self).chunks@.len() == old(self).chunks@.len(),
    {
        self.chunks[slot.chunk].deactivate(slot.slot_idx);
        proof {
            assert(self@ =~= old(self)@.update(
                slot.at(),
                GateSlot { active: false, ..old(self)@[slot.at()] },
            ));
        }
    }

    /// The number of slots that take part in gating (capped at what a machine
    /// word can count).
    pub fn active_count(&self) -> (r: usize)
        ensures
            r == (if active_in(self@) <= usize::MAX {
                active_in(self@) as int
            } else {
                usize::MAX as int
            }),
    {
        let mut count: usize = 0;
        let mut ci: usize = 0;
        while ci < self.chunks.len()
            invariant
                ci <= self.chunks@.len(),
                count == (if active_in(self@.take(ci * CHUNK_SLOTS)) <= usize::MAX {
                    active_in(self@.take(ci * CHUNK_SLOTS)) as int
                } else {
                    usize::MAX as int
                }),
            decreases self.chunks@.len() - ci,
        {
            let mut idx: usize = 0;
            while idx < CHUNK_SLOTS
                invariant
                    ci < self.chunks@.len(),
                    idx <= CHUNK_SLOTS,
                    count == (if active_in(self@.take(ci * CHUNK_SLOTS + idx)) <= usize::MAX {
                        active_in(self@.take(ci * CHUNK_SLOTS + idx)) as int
                    } else {
                        usize::MAX as int
                    }),
                decreases CHUNK_SLOTS - idx,
            {
                proof {
                    let n: int = ci * CHUNK_SLOTS + idx;
                    assert(self@.take(n + 1).drop_last() =~= self@.take(n));
                    assert(self@.take(n + 1).last() == self.chunks@[ci as int]@[idx as int]);
                }
                if self.chunks[ci].is_active(idx) {
                    count = count.saturating_add(1);
                }
                idx += 1;
            }
            ci += 1;
        }
        proof {
            assert(self@.take(ci * CHUNK_SLOTS) =~= self@);
        }
        count
    }
}

/// Claim the first vacant slot for a consumer that is about to join, and
/// store its provisional cursor. Appends a chunk where no slot is vacant. The
/// slot does not take part in gating yet.
pub fn claim_registry_slot(registry: &mut Registry, join_cursor: u64) -> (r: SlotId)
    requires
        old(registry).inv(),
    ensures
        final(registry).inv(),
        final(registry).has(r),
        first_vacant(old(registry)@, r.at()),
        final(registry)@ == with_room(old(registry)@, r.at()).update(
            r.at(),
            GateSlot { active: false, cursor: guarded(join_cursor) },
        ),
{
    let mut ci: usize = 0;
    while ci < registry.chunks.len()
        invariant
            *registry == *old(registry),
            registry.inv(),
            ci <= registry.chunks@.len(),
            forall|j: int| 0 <= j < ci * CHUNK_SLOTS ==> !vacant(#[trigger] registry@[j]),
        decreases registry.chunks@.len() - ci,
    {
        let mut idx: usize = 0;
        while idx < CHUNK_SLOTS
            invariant
                *registry == *old(registry),
                registry.inv(),
                ci < registry.chunks@.len(),
                idx <= CHUNK_SLOTS,
                forall|j: int|
                    0 <= j < ci * CHUNK_SLOTS + idx ==> !vacant(#[trigger] registry@[j]),
            decreases CHUNK_SLOTS - idx,
        {
            if !registry.chunks[ci].is_active(idx) && registry.chunks[ci].slots[idx] == DETACHED {
                let r = SlotId { chunk: ci, slot_idx: idx };
                let provisional: u64 = guard_sentinel(join_cursor);
                registry.store(r, provisional);
                return r;
            }
            proof {
                assert(registry@[ci * CHUNK_SLOTS + idx] == registry.chunks@[ci as int]@[idx as int]);
            }
            idx += 1;
        }
        ci += 1;
    }
    registry.chunks.push(Chunk::new());
    let r = SlotId { chunk: ci, slot_idx: 0 };
    proof {
        assert(registry@ =~= with_room(old(registry)@, r.at()));
    }
    let provisional: u64 = guard_sentinel(join_cursor);
    registry.store(r, provisional);
    r
}

/// Register a consumer: claim a slot, let it take part in gating, and only
/// then take the producer's cursor as the join point. A consumer that took
/// its join point before it was visible could be lapped by a producer that
/// never saw it.
pub fn subscribe_slot(registry: &mut Registry, join_cursor: u64) -> (r: JoinedSlot)
    requires
        old(registry).inv(),
    ensures
        final(registry).inv(),
        final(registry).has(r.slot),
        first_vacant(old(registry)@, r.slot.at()),
        r.joined == join_cursor,
        r.published == guarded(join_cursor),
        final(registry)@ == with_room(old(registry)@, r.slot.at()).update(
            r.slot.at(),
            GateSlot { active: true, cursor: guarded(join_cursor) },
        ),
{
    let slot = claim_registry_slot(registry, join_cursor);
    registry.activate(slot);
    let published: u64 = guard_sentinel(join_cursor);
    registry.store(slot, published);
    proof {
        assert(registry@ =~= with_room(old(registry)@, slot.at()).update(
            slot.at(),
            GateSlot { active: true, cursor: guarded(join_cursor) },
        ));
    }
    JoinedSlot { slot, joined: join_cursor, published }
}

/// The producer's private copies of the cursors, in order.
pub open spec fn copies_of(blocks: Seq<[u64; 64]>) -> Seq<u64> {
    Seq::new(
        CHUNK_SLOTS as nat * blocks.len(),
        |k: int| blocks[k / CHUNK_SLOTS as int]@[k % CHUNK_SLOTS as int],
    )
}

/// The copy of slot `k`, or the value that a fresh copy starts with.
pub open spec fn copy_at(copies: Seq<u64>, k: int, seed: u64) -> u64 {
    if k < copies.len() {
        copies[k]
    } else {
        seed
    }
}

/// The cursor that a rescan counts for a slot: the copy where it leaves room,
/// else the slot's own; `None` where the slot holds nobody back.
pub open spec fn counted(
    slot: GateSlot,
    copy: u64,
    next_seq: u64,
    needed: u64,
    capacity: u64,
) -> Option<u64> {
    if !slot.active {
        None
    } else if !gated(next_seq, needed, copy, capacity) {
        Some(copy)
    } else if slot.cursor == DETACHED {
        None
    } else {
        Some(slot.cursor)
    }
}

/// The copy of a slot after a rescan.
pub open spec fn refreshed(
    slot: GateSlot,
    copy: u64,
    next_seq: u64,
    needed: u64,
    capacity: u64,
) -> u64 {
    match counted(slot, copy, next_seq, needed, capacity) {
        Some(cursor) => cursor,
        None => copy,
    }
}

/// What a walk over the first `n` slots reports: whether any slot counts, and
/// the largest lag among those that do.
pub open spec fn walked(
    slots: Seq<GateSlot>,
    copies: Seq<u64>,
    n: int,
    next_seq: u64,
    needed: u64,
    capacity: u64,
    report: (bool, u64),
) -> bool {
    let seed = next_seq.wrapping_sub(capacity);
    let count = |k: int| counted(slots[k], copy_at(copies, k, seed), next_seq, needed, capacity);
    &&& forall|k: int|
        0 <= k < n ==> ((#[trigger] count(k)) matches Some(c) ==> report.0 && lag(next_seq, c)
            <= report.1)
    &&& report.0 ==> exists|k: int|
        0 <= k < n && ((#[trigger] count(k)) matches Some(c) && lag(next_seq, c) == report.1)
    &&& !report.0 ==> report.1 == 0
}

/// The copies after a walk over the first `n` slots, with `blocks` blocks of
/// copies.
pub open spec fn walked_copies(
    slots: Seq<GateSlot>,
    before: Seq<u64>,
    after: Seq<u64>,
    n: int,
    next_seq: u64,
    needed: u64,
    capacity: u64,
) -> bool {
    let seed = next_seq.wrapping_sub(capacity);
    &&& after.len() >= n
    &&& after.len() >= before.len()
    &&& forall|k: int|
        0 <= k < n ==> #[trigger] after[k] == refreshed(
            slots[k],
            copy_at(before, k, seed),
            next_seq,
            needed,
            capacity,
        )
    &&& forall|k: int| n <= k < after.len() ==> #[trigger] after[k] == copy_at(before, k, seed)
}

/// Walk the heap registry for the slowest consumer. Re-reads only the slots
/// whose copy would hold the producer back.
pub fn scan_chunk_registry(
    registry: &Registry,
    cached_cursors: &mut Vec<[u64; 64]>,
    next_seq: u64,
    needed: u64,
    capacity: u64,
) -> (r: (bool, u64))
    ensures
        walked(
            registry@,
            copies_of(old(cached_cursors)@),
            registry@.len() as int,
            next_seq,
            needed,
            capacity,
            r,
        ),
        walked_copies(
            registry@,
            copies_of(old(cached_cursors)@),
            copies_of(final(cached_cursors)@),
            registry@.len() as int,
            next_seq,
            needed,
            capacity,
        ),
        final(cached_cursors)@.len() == (if old(cached_cursors)@.len() >= registry.chunks@.len() {
            old(cached_cursors)@.len()
        } else {
            registry.chunks@.len()
        }),
{
    let mut any_active: bool = false;
    let mut max_lag: u64 = 0;
    let mut ci: usize = 0;
    let ghost before = copies_of(cached_cursors@);
    while ci < registry.chunks.len()
        invariant
            ci <= registry.chunks@.len(),
            before == copies_of(old(cached_cursors)@),
            cached_cursors@.len() == (if old(cached_cursors)@.len() >= ci {
                old(cached_cursors)@.len()
            } else {
                ci as nat
            }),
            walked(
                registry@,
                before,
                ci * CHUNK_SLOTS,
                next_seq,
                needed,
                capacity,
                (any_active, max_lag),
            ),
            walked_copies(
                registry@,
                before,
                copies_of(cached_cursors@),
                ci * CHUNK_SLOTS,
                next_seq,
                needed,
                capacity,
            ),
        decreases registry.chunks@.len() - ci,
    {
        let ghost copies = copies_of(cached_cursors@);
        if cached_cursors.len() == ci {
            cached_cursors.push([next_seq.wrapping_sub(capacity); 64]);
            proof {
                let seed = next_seq.wrapping_sub(capacity);
                assert forall|k: int| 0 <= k < copies_of(cached_cursors@).len() implies #[trigger]
                    copies_of(cached_cursors@)[k] == copy_at(copies, k, seed) by {
                    if k >= copies.len() {
                        assert(k / 64 == ci);
                    }
                }
            }
        }
        let mut idx: usize = 0;
        while idx < CHUNK_SLOTS
            invariant
                ci < registry.chunks@.len(),
                idx <= CHUNK_SLOTS,
                before == copies_of(old(cached_cursors)@),
                cached_cursors@.len() == (if old(cached_cursors)@.len() >= ci + 1 {
                    old(cached_cursors)@.len()
                } else {
                    (ci + 1) as nat
                }),
                walked(
                    registry@,
                    before,
                    ci * CHUNK_SLOTS + idx,
                    next_seq,
                    needed,
                    capacity,
                    (any_active, max_lag),
                ),
                walked_copies(
                    registry@,
                    before,
                    copies_of(cached_cursors@),
                    ci * CHUNK_SLOTS + idx,
                    next_seq,
                    needed,
                    capacity,
                ),
            decreases CHUNK_SLOTS - idx,
        {
            let ghost n: int = ci * CHUNK_SLOTS + idx;
            let ghost copies = copies_of(cached_cursors@);
            let ghost report = (any_active, max_lag);
            let active: bool = registry.chunks[ci].is_active(idx);
            let fresh: u64 = registry.chunks[ci].slots[idx];
            let copy: u64 = cached_cursors[ci][idx];
            proof {
                assert(registry@[n] == registry.chunks@[ci as int]@[idx as int]);
                assert(copies[n] == copy);
            }
            match scan_slot(active, fresh, copy, next_seq, needed, capacity) {
                Some(cursor) => {
                    cached_cursors[ci][idx] = cursor;
                    any_active = true;
                    let lag: u64 = next_seq.wrapping_sub(cursor);
                    if lag > max_lag {
                        max_lag = lag;
                    }
                },
                None => {},
            }
            proof {
                assert(copies_of(cached_cursors@) =~= copies.update(
                    n,
                    refreshed(registry@[n], copy, next_seq, needed, capacity),
                ));
                lemma_walk_step(
                    registry@,
                    before,
                    n,
                    next_seq,
                    needed,
                    capacity,
                    report,
                    (any_active, max_lag),
                );
            }
            idx += 1;
        }
        ci += 1;
    }
    (any_active, max_lag)
}

/// One slot of a walk: the cursor to count, if any.
pub fn scan_slot(
    active: bool,
    fresh: u64,
    copy: u64,
    next_seq: u64,
    needed: u64,
    capacity: u64,
) -> (r: Option<u64>)
    ensures
        r == counted(
            GateSlot { active, cursor: fresh },
            copy,
            next_seq,
            needed,
            capacity,
        ),
{
    if !active {
        return None;
    }
    if lacks_space(next_seq, needed, copy, capacity) {
        if fresh == DETACHED {
            return None;
        }
        return Some(fresh);
    }
    Some(copy)
}

/// A walk extended by one slot.
pub proof fn lemma_walk_step(
    slots: Seq<GateSlot>,
    copies: Seq<u64>,
    n: int,
    next_seq: u64,
    needed: u64,
    capacity: u64,
    before: (bool, u64),
    after: (bool, u64),
)
    requires
        0 <= n < slots.len(),
        walked(slots, copies, n, next_seq, needed, capacity, before),
        after == match counted(
            slots[n],
            copy_at(copies, n, next_seq.wrapping_sub(capacity)),
            next_seq,
            needed,
            capacity,
        ) {
            Some(c) => (
                true,
                if lag(next_seq, c) > before.1 {
                    lag(next_seq, c) as u64
                } else {
                    before.1
                },
            ),
            None => before,
        },
    ensures
        walked(slots, copies, n + 1, next_seq, needed, capacity, after),
{
    let seed = next_seq.wrapping_sub(capacity);
    let count = |k: int| counted(slots[k], copy_at(copies, k, seed), next_seq, needed, capacity);
    let here = count(n);
    if after.0 {
        if here is Some && (!before.0 || lag(next_seq, here->0) > before.1) {
            assert(lag(next_seq, here->0) == after.1);
        } else {
            let k = choose|k: int|
                0 <= k < n && ((#[trigger] count(k)) matches Some(c) && lag(next_seq, c)
                    == before.1);
            assert(count(k) is Some);
        }
    }
}

/// The producer's view after a walk: the copy of the slowest cursor, and
/// whether `needed` units are free. With nobody registered the slowest cursor
/// is one unit behind the producer, so that it runs freely and still looks
/// again at least once per lap.
pub fn rescan_gate(
    next_seq: u64,
    needed: u64,
    capacity: u64,
    cached_min: &mut u64,
    walk: (bool, u64),
) -> (r: bool)
    ensures
        *final(cached_min) == next_seq.wrapping_sub(if walk.0 {
            walk.1
        } else {
            1
        }),
        r == !gated(next_seq, needed, *final(cached_min), capacity),
{
    *cached_min = if walk.0 {
        next_seq.wrapping_sub(walk.1)
    } else {
        next_seq.wrapping_sub(1)
    };
    !lacks_space(next_seq, needed, *cached_min, capacity)
}

/// The count of the slots that take part is the number of those slots.
pub proof fn every_active_slot_is_counted_once(slots: Seq<GateSlot>)
    ensures
        active_in(slots) == active_set(slots).len(),
        active_set(slots).finite(),
        active_in(slots) <= slots.len(),
    decreases slots.len(),
{
    if slots.len() == 0 {
        assert(active_set(slots) =~= Set::empty());
    } else {
        let rest = slots.drop_last();
        every_active_slot_is_counted_once(rest);
        if slots.last().active {
            assert(active_set(slots) =~= active_set(rest).insert(slots.len() - 1));
        } else {
            assert(active_set(slots) =~= active_set(rest));
        }
    }
}

/// The slots that take part.
pub open spec fn active_set(slots: Seq<GateSlot>) -> Set<int> {
    Set::new(|k: int| 0 <= k < slots.len() && slots[k].active)
}

} // verus!
