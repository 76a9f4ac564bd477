//! Gating: a producer that never overruns a registered consumer, and
//! consumers that are handed everything published after they joined.
//!
//! The shared side is a [`Gate`]: the published cursor, the closed flag and
//! the consumers' [`Registry`]. [`GateProducer`] and [`GateConsumer`] are the
//! private sides. They move cursors only; the rings put payloads on top.

use crate::arith::{lag, ring_capacity, MAX_CURSOR};
use crate::handler::Handler;
use crate::registry::{
    active_in, active_set, copies_of, copy_at, counted, every_active_slot_is_counted_once,
    first_vacant, gated, guard_sentinel, guarded, lacks_space, rescan_gate, scan_chunk_registry,
    subscribe_slot, vacant, walked, walked_copies, with_room, GateSlot, JoinedSlot, Registry,
    SlotId, DETACHED,
};
use vstd::prelude::*;

verus! {

/// A slot whose cursor holds the producer back.
pub open spec fn holds_back(slot: GateSlot) -> bool {
    slot.active && slot.cursor != DETACHED
}

/// What the producer and its consumers share.
pub struct Gate {
    /// Units published so far.
    pub tail: u64,
    /// The producer is gone.
    pub closed: bool,
    pub registry: Registry,
}

/// A gate as producer and consumers see it: the published cursor, the closed
/// flag, and the slots.
pub struct GateView {
    pub tail: u64,
    pub closed: bool,
    pub slots: Seq<GateSlot>,
}

impl GateView {
    /// No consumer has read past what was published.
    pub open spec fn inv(self) -> bool {
        &&& self.tail <= MAX_CURSOR
        &&& forall|k: int|
            0 <= k < self.slots.len() && holds_back(#[trigger] self.slots[k])
                ==> self.slots[k].cursor <= self.tail
    }

    /// Every registered consumer leaves room for `needed` more units.
    pub open spec fn open_for(self, needed: int, capacity: int) -> bool {
        forall|k: int|
            0 <= k < self.slots.len() && holds_back(#[trigger] self.slots[k]) ==> self.tail
                + needed - self.slots[k].cursor <= capacity
    }
}

impl Gate {
    /// What producer and consumers see.
    pub open spec fn view(&self) -> GateView {
        GateView { tail: self.tail, closed: self.closed, slots: self.registry@ }
    }

    /// The registry is in order, and no consumer has read past what was
    /// published.
    pub open spec fn inv(&self) -> bool {
        self.registry.inv() && self@.inv()
    }

    /// A fresh gate.
    pub fn new() -> (r: Self)
        ensures
            r.inv(),
            r.tail == 0,
            !r.closed,
            r.registry@ == Seq::new(
                64,
                |i: int| GateSlot { active: false, cursor: DETACHED },
            ),
    {
        Gate { tail: 0, closed: false, registry: Registry::new() }
    }

    /// Say that the producer is gone.
    pub fn close(&mut self)
        requires
            old(self).inv(),
        ensures
            *final(self) == (Gate { closed: true, ..*old(self) }),
            final(self).inv(),
    {
        self.closed = true;
        proof {
            assert forall|k: int|
                0 <= k < self@.slots.len() && holds_back(#[trigger] self@.slots[k]) implies
                self@.slots[k].cursor <= self@.tail by {
                assert(holds_back(old(self)@.slots[k]));
            }
        }
    }
}

/// `after` is `before` with `amount` more units published.
pub open spec fn advanced(before: GateView, after: GateView, amount: int) -> bool {
    &&& after.tail == before.tail + amount
    &&& after.closed == before.closed
    &&& after.slots == before.slots
}

/// `after` is `before` with another content of slot `k`.
pub open spec fn stored(before: GateView, after: GateView, k: int, slot: GateSlot) -> bool {
    &&& after.tail == before.tail
    &&& after.closed == before.closed
    &&& after.slots == before.slots.update(k, slot)
}

/// `after` is `before` with a consumer that joined at slot `k`.
pub open spec fn joined(before: GateView, after: GateView, k: int) -> bool {
    &&& after.tail == before.tail
    &&& after.closed == before.closed
    &&& first_vacant(before.slots, k)
    &&& after.slots == with_room(before.slots, k).update(
        k,
        GateSlot { active: true, cursor: before.tail },
    )
}

/// The producer's private side.
pub struct GateProducer {
    pub mask: u64,
    pub next_seq: u64,
    pub cached_min: u64,
    pub cached_cursors: Vec<[u64; 64]>,
}

impl GateProducer {
    /// Units in the ring.
    pub open spec fn cap(&self) -> int {
        self.mask + 1
    }

    /// The copies of the registered cursors.
    pub open spec fn copies(&self) -> Seq<u64> {
        copies_of(self.cached_cursors@)
    }

    /// How far the slowest known consumer is behind.
    pub open spec fn known_lag(&self) -> nat {
        lag(self.next_seq, self.cached_min)
    }

    /// The producer's cursor is the published one, and no distance that it
    /// computes leaves the cursor range.
    pub open spec fn tracks(&self, gate: GateView) -> bool {
        &&& ring_capacity(self.cap())
        &&& self.cap() >= 2
        &&& self.next_seq == gate.tail
        &&& self.next_seq <= MAX_CURSOR
        &&& self.known_lag() <= self.next_seq + self.cap()
        &&& forall|k: int|
            0 <= k < self.copies().len() ==> lag(self.next_seq, #[trigger] self.copies()[k])
                <= self.next_seq + self.cap()
    }

    /// What the producer knows of slot `k` is no further than `cursor`.
    pub open spec fn bounded(&self, k: int, cursor: u64) -> bool {
        &&& cursor <= self.next_seq
        &&& lag(self.next_seq, cursor) <= self.known_lag()
        &&& k < self.copies().len() ==> lag(self.next_seq, cursor) <= lag(
            self.next_seq,
            self.copies()[k],
        )
    }

    /// Everything the producer knows is a lower bound of the registered
    /// cursors, and no registered consumer is more than one lap behind.
    pub open spec fn inv(&self, gate: GateView) -> bool {
        &&& self.tracks(gate)
        &&& gate.inv()
        &&& self.known_lag() <= self.cap()
        &&& forall|k: int|
            0 <= k < gate.slots.len() && holds_back(#[trigger] gate.slots[k])
                ==> self.bounded(k, gate.slots[k].cursor) && gate.tail
                - gate.slots[k].cursor <= self.cap()
    }

    /// `after` is the state that a walk over the registry leaves behind.
    pub open spec fn rescanned(&self, after: &Self, gate: GateView, needed: u64) -> bool {
        let slots = gate.slots;
        let n = slots.len() as int;
        let cap = self.cap() as u64;
        &&& after.mask == self.mask
        &&& after.next_seq == self.next_seq
        &&& exists|report: (bool, u64)| #[trigger]
            walked(slots, self.copies(), n, self.next_seq, needed, cap, report) && after.cached_min
                == self.next_seq.wrapping_sub(
                if report.0 {
                    report.1
                } else {
                    1
                },
            )
        &&& walked_copies(slots, self.copies(), after.copies(), n, self.next_seq, needed, cap)
        &&& after.cached_cursors@.len() == if self.cached_cursors@.len() >= (slots.len() + 63) / 64 {
            self.cached_cursors@.len() as int
        } else {
            ((slots.len() + 63) / 64) as int
        }
    }

    /// `after` is the state that asking for `needed` units leaves behind: a
    /// walk over the registry happens only where the copy of the slowest
    /// cursor says no.
    pub open spec fn asked(&self, after: &Self, gate: GateView, needed: u64) -> bool {
        if self.known_lag() + needed <= self.cap() {
            *after == *self
        } else {
            self.rescanned(after, gate, needed)
        }
    }

    /// `after` is the state that asking for `needed` units and publishing them
    /// leaves behind.
    pub open spec fn spent(&self, after: &Self, gate: GateView, needed: u64) -> bool {
        exists|asked: GateProducer| #[trigger]
            self.asked(&asked, gate, needed) && *after == (GateProducer {
                next_seq: (asked.next_seq + needed) as u64,
                ..asked
            })
    }

    /// The private side of the producer of a fresh ring.
    pub fn new(capacity: usize) -> (r: Self)
        requires
            ring_capacity(capacity as int),
        ensures
            r.mask == capacity - 1,
            r.next_seq == 0,
            r.cached_min == 0,
            r.cached_cursors@.len() == 0,
    {
        GateProducer {
            mask: (capacity - 1) as u64,
            next_seq: 0,
            cached_min: 0,
            cached_cursors: Vec::new(),
        }
    }

    /// Walk the registry and see whether `needed` units are free.
    pub fn rescan(&mut self, gate: &Gate, needed: u64) -> (r: bool)
        requires
            old(self).tracks(gate@),
            gate.inv(),
            0 < needed < old(self).cap(),
        ensures
            old(self).rescanned(final(self), gate@, needed),
            final(self).tracks(gate@),
            r == (final(self).known_lag() + needed <= final(self).cap()),
            old(self).inv(gate@) ==> final(self).inv(gate@) && r == gate@.open_for(
                needed as int,
                old(self).cap(),
            ),
    {
        let capacity: u64 = self.mask + 1;
        let walk: (bool, u64) = scan_chunk_registry(
            &gate.registry,
            &mut self.cached_cursors,
            self.next_seq,
            needed,
            capacity,
        );
        let r: bool = rescan_gate(self.next_seq, needed, capacity, &mut self.cached_min, walk);
        proof {
            assert(walked(
                gate@.slots,
                old(self).copies(),
                gate@.slots.len() as int,
                self.next_seq,
                needed,
                capacity,
                walk,
            ));
            lemma_rescan_tracks(*old(self), *self, gate@, needed);
            if old(self).inv(gate@) {
                lemma_rescan_inv(*old(self), *self, gate@, needed);
            }
        }
        r
    }

    /// Whether `needed` units are free.
    pub fn has_space(&mut self, gate: &Gate, needed: u64) -> (r: bool)
        requires
            old(self).tracks(gate@),
            gate.inv(),
            0 < needed < old(self).cap(),
        ensures
            old(self).asked(final(self), gate@, needed),
            final(self).tracks(gate@),
            r == (final(self).known_lag() + needed <= final(self).cap()),
            old(self).inv(gate@) ==> final(self).inv(gate@) && r == gate@.open_for(
                needed as int,
                old(self).cap(),
            ),
    {
        if !lacks_space(self.next_seq, needed, self.cached_min, self.mask + 1) {
            return true;
        }
        self.rescan(gate, needed)
    }

    /// Publish `amount` units that were granted.
    pub fn publish(&mut self, gate: &mut Gate, amount: u64)
        requires
            old(self).tracks(old(gate)@),
            old(gate).inv(),
            old(self).known_lag() + amount <= old(self).cap(),
            old(gate).tail + amount <= MAX_CURSOR,
        ensures
            *final(self) == (GateProducer {
                next_seq: (old(self).next_seq + amount) as u64,
                ..*old(self)
            }),
            advanced(old(gate)@, final(gate)@, amount as int),
            final(gate).inv(),
            final(self).tracks(final(gate)@),
            old(self).inv(old(gate)@) ==> final(self).inv(final(gate)@),
    {
        self.next_seq = self.next_seq.wrapping_add(amount);
        gate.tail = self.next_seq;
        proof {
            lemma_publish_tracks(*old(self), *self, old(gate)@, gate@, amount);
            if old(self).inv(old(gate)@) {
                lemma_publish_inv(*old(self), *self, old(gate)@, gate@, amount);
            }
        }
    }
}

/// Publishing keeps the distances within the cursor range.
pub proof fn lemma_publish_tracks(
    producer: GateProducer,
    next: GateProducer,
    before: GateView,
    after: GateView,
    amount: u64,
)
    requires
        producer.tracks(before),
        before.inv(),
        producer.known_lag() + amount <= producer.cap(),
        before.tail + amount <= MAX_CURSOR,
        next == (GateProducer { next_seq: (producer.next_seq + amount) as u64, ..producer }),
        advanced(before, after, amount as int),
    ensures
        after.inv(),
        next.tracks(after),
{
    assert forall|k: int| 0 <= k < after.slots.len() && holds_back(#[trigger] after.slots[k]) implies
        after.slots[k].cursor <= after.tail by {
        assert(holds_back(before.slots[k]));
    }
    assert forall|k: int| 0 <= k < next.copies().len() implies lag(
        next.next_seq,
        #[trigger] next.copies()[k],
    ) <= next.next_seq + next.cap() by {
        assert(lag(producer.next_seq, producer.copies()[k]) <= producer.next_seq + producer.cap());
    }
}

/// Publishing what was granted overruns nobody.
pub proof fn lemma_publish_inv(
    producer: GateProducer,
    next: GateProducer,
    before: GateView,
    after: GateView,
    amount: u64,
)
    requires
        producer.inv(before),
        producer.known_lag() + amount <= producer.cap(),
        before.tail + amount <= MAX_CURSOR,
        next == (GateProducer { next_seq: (producer.next_seq + amount) as u64, ..producer }),
        advanced(before, after, amount as int),
    ensures
        next.inv(after),
{
    lemma_publish_tracks(producer, next, before, after, amount);
    assert forall|k: int| 0 <= k < after.slots.len() && holds_back(#[trigger] after.slots[k]) implies
        next.bounded(k, after.slots[k].cursor) && after.tail - after.slots[k].cursor
        <= next.cap() by {
        assert(holds_back(before.slots[k]));
        assert(producer.bounded(k, after.slots[k].cursor));
        if k < next.copies().len() {
            assert(lag(producer.next_seq, producer.copies()[k]) <= producer.next_seq
                + producer.cap());
        }
    }
}

/// A walk keeps what it computes within the cursor range.
pub proof fn lemma_rescan_tracks(before: GateProducer, after: GateProducer, gate: GateView, needed: u64)
    requires
        before.tracks(gate),
        gate.inv(),
        before.rescanned(&after, gate, needed),
    ensures
        after.tracks(gate),
{
    let slots = gate.slots;
    let n = slots.len() as int;
    let cap = before.cap() as u64;
    let seed = before.next_seq.wrapping_sub(cap);
    let report = choose|report: (bool, u64)| #[trigger]
        walked(slots, before.copies(), n, before.next_seq, needed, cap, report) && after.cached_min
            == before.next_seq.wrapping_sub(
            if report.0 {
                report.1
            } else {
                1
            },
        );
    let count = |k: int|
        counted(slots[k], copy_at(before.copies(), k, seed), before.next_seq, needed, cap);
    assert forall|k: int| 0 <= k < n implies ((#[trigger] count(k)) matches Some(c) ==> lag(
        before.next_seq,
        c,
    ) <= before.next_seq + before.cap()) by {
        if k < before.copies().len() {
            assert(lag(before.next_seq, before.copies()[k]) <= before.next_seq + before.cap());
        }
        if holds_back(slots[k]) {
            assert(slots[k].cursor <= gate.tail);
        }
    }
    if report.0 {
        let k = choose|k: int|
            0 <= k < n && ((#[trigger] count(k)) matches Some(c) && lag(before.next_seq, c)
                == report.1);
        assert(count(k) is Some);
    }
    assert forall|k: int| 0 <= k < after.copies().len() implies lag(
        after.next_seq,
        #[trigger] after.copies()[k],
    ) <= after.next_seq + after.cap() by {
        if k < before.copies().len() {
            assert(lag(before.next_seq, before.copies()[k]) <= before.next_seq + before.cap());
        }
        if k < n {
            assert(count(k) matches Some(c) ==> lag(before.next_seq, c) <= before.next_seq
                + before.cap());
        }
    }
}

/// A walk keeps every bound that a registered slot stands for: where slot `k`
/// takes part with a cursor no further than `cursor`, what the producer knows
/// of it stays no further than `cursor`.
pub proof fn rescan_respects_registered_slots(
    before: GateProducer,
    after: GateProducer,
    gate: GateView,
    needed: u64,
    k: int,
    cursor: u64,
)
    requires
        before.tracks(gate),
        gate.inv(),
        before.rescanned(&after, gate, needed),
        0 < needed < before.cap(),
        0 <= k < gate.slots.len(),
        holds_back(gate.slots[k]),
        gate.slots[k].cursor <= cursor,
        before.bounded(k, cursor),
    ensures
        after.bounded(k, cursor),
{
    let slots = gate.slots;
    let n = slots.len() as int;
    let cap = before.cap() as u64;
    let seed = before.next_seq.wrapping_sub(cap);
    let report = choose|report: (bool, u64)| #[trigger]
        walked(slots, before.copies(), n, before.next_seq, needed, cap, report) && after.cached_min
            == before.next_seq.wrapping_sub(
            if report.0 {
                report.1
            } else {
                1
            },
        );
    let count = |k: int|
        counted(slots[k], copy_at(before.copies(), k, seed), before.next_seq, needed, cap);
    let seen = count(k);
    if k < before.copies().len() {
        assert(lag(before.next_seq, before.copies()[k]) <= before.next_seq + before.cap());
        assert(lag(before.next_seq, cursor) <= lag(before.next_seq, before.copies()[k]));
    } else {
        assert(gated(before.next_seq, needed, seed, cap));
    }
    assert(seen is Some);
    assert(after.copies()[k] == seen->0);
}

pub proof fn lemma_rescan_inv(before: GateProducer, after: GateProducer, gate: GateView, needed: u64)
    requires
        before.inv(gate),
        0 < needed < before.cap(),
        before.rescanned(&after, gate, needed),
        after.tracks(gate),
    ensures
        after.inv(gate),
        (after.known_lag() + needed <= after.cap()) == gate.open_for(needed as int, before.cap()),
{
    let slots = gate.slots;
    let n = slots.len() as int;
    let cap = before.cap() as u64;
    let seed = before.next_seq.wrapping_sub(cap);
    assert forall|k: int|
        0 <= k < gate.slots.len() && holds_back(#[trigger] gate.slots[k]) implies after.bounded(
        k,
        gate.slots[k].cursor,
    ) && gate.tail - gate.slots[k].cursor <= after.cap() by {
        rescan_respects_registered_slots(before, after, gate, needed, k, slots[k].cursor);
    }
    let report = choose|report: (bool, u64)| #[trigger]
        walked(slots, before.copies(), n, before.next_seq, needed, cap, report) && after.cached_min
            == before.next_seq.wrapping_sub(
            if report.0 {
                report.1
            } else {
                1
            },
        );
    let count = |k: int|
        counted(slots[k], copy_at(before.copies(), k, seed), before.next_seq, needed, cap);
    if report.0 {
        let k = choose|k: int|
            0 <= k < n && ((#[trigger] count(k)) matches Some(c) && lag(before.next_seq, c)
                == report.1);
        assert(count(k) is Some);
        if k < before.copies().len() {
            assert(lag(before.next_seq, before.copies()[k]) <= before.next_seq + before.cap());
        }
        if gated(before.next_seq, needed, copy_at(before.copies(), k, seed), cap) {
            assert(holds_back(slots[k]));
            assert(slots[k].cursor <= gate.tail);
        }
    }
}

/// A consumer's private side.
pub struct GateConsumer {
    pub mask: u64,
    pub slot: SlotId,
    pub read_cursor: u64,
    pub published: u64,
    pub write_cache: u64,
}

impl GateConsumer {
    /// Units in the ring.
    pub open spec fn cap(&self) -> int {
        self.mask + 1
    }

    /// Units published after the join and not yet consumed.
    pub open spec fn unread(&self, gate: GateView) -> int {
        gate.tail - self.read_cursor
    }

    /// The consumer's slot takes part in gating with the published cursor,
    /// and the cursors are in order. Nothing that the consumer has not
    /// released is more than one lap behind the producer.
    pub open spec fn inv(&self, gate: GateView) -> bool {
        &&& ring_capacity(self.cap())
        &&& gate.inv()
        &&& 0 <= self.slot.at() < gate.slots.len()
        &&& self.slot.slot_idx < 64
        &&& gate.slots[self.slot.at()] == (GateSlot { active: true, cursor: self.published })
        &&& self.published <= self.read_cursor <= self.write_cache <= gate.tail
        &&& gate.tail - self.published <= self.cap()
    }

    /// The cursors are in order, whether or not the consumer's slot still
    /// takes part in gating.
    pub open spec fn placed(&self, gate: GateView) -> bool {
        &&& ring_capacity(self.cap())
        &&& gate.tail <= MAX_CURSOR
        &&& self.published <= self.read_cursor <= self.write_cache <= gate.tail
    }

    /// Whether consuming `amount` units publishes the read cursor.
    pub open spec fn publishes(&self, amount: u64, publish_now: bool, batch: u64) -> bool {
        ||| publish_now
        ||| self.read_cursor + amount == self.write_cache
        ||| self.read_cursor + amount - self.published >= batch
    }

    /// Register a consumer. It sees what is published from now on.
    pub fn join(gate: &mut Gate, mask: u64) -> (r: Self)
        requires
            old(gate).inv(),
            ring_capacity(mask + 1),
        ensures
            joined(old(gate)@, final(gate)@, r.slot.at()),
            final(gate).inv(),
            r.mask == mask,
            r.read_cursor == old(gate).tail,
            r.published == old(gate).tail,
            r.write_cache == old(gate).tail,
            r.inv(final(gate)@),
            r.unread(final(gate)@) == 0,
    {
        let joined: JoinedSlot = subscribe_slot(&mut gate.registry, gate.tail);
        proof {
            let k = joined.slot.at();
            assert forall|j: int|
                0 <= j < gate@.slots.len() && holds_back(#[trigger] gate@.slots[j]) implies
                gate@.slots[j].cursor <= gate.tail by {
                if j != k {
                    assert(holds_back(with_room(old(gate)@.slots, k)[j]));
                    assert(j < old(gate)@.slots.len());
                    assert(holds_back(old(gate)@.slots[j]));
                }
            }
        }
        GateConsumer {
            mask,
            slot: joined.slot,
            read_cursor: joined.joined,
            published: joined.published,
            write_cache: joined.joined,
        }
    }

    /// Units known to be readable.
    pub fn available_cached(&self) -> (r: u64)
        requires
            self.read_cursor <= self.write_cache,
        ensures
            r == self.write_cache - self.read_cursor,
    {
        self.write_cache.wrapping_sub(self.read_cursor)
    }

    /// Re-read the producer's cursor.
    pub fn refresh(&mut self, gate: &Gate) -> (r: u64)
        requires
            old(self).inv(gate@),
        ensures
            r == gate.tail,
            *final(self) == (GateConsumer { write_cache: gate.tail, ..*old(self) }),
            final(self).inv(gate@),
    {
        self.write_cache = gate.tail;
        self.write_cache
    }

    /// Whether there is something to read. Re-reads the producer's cursor
    /// only where the copy says no.
    pub fn has_item(&mut self, gate: &Gate) -> (r: bool)
        requires
            old(self).inv(gate@),
        ensures
            r == (old(self).unread(gate@) > 0),
            *final(self) == (GateConsumer {
                write_cache: if old(self).write_cache == old(self).read_cursor {
                    gate.tail
                } else {
                    old(self).write_cache
                },
                ..*old(self)
            }),
            final(self).inv(gate@),
            r ==> final(self).read_cursor < final(self).write_cache,
    {
        if self.available_cached() == 0 {
            self.refresh(gate);
            if self.available_cached() == 0 {
                return false;
            }
        }
        true
    }

    /// Consume `amount` units and publish the progress where it is due.
    pub fn advance(&mut self, gate: &mut Gate, amount: u64, publish_now: bool, batch: u64)
        requires
            old(gate).inv(),
            old(self).inv(old(gate)@),
            amount <= old(self).write_cache - old(self).read_cursor,
        ensures
            final(self).mask == old(self).mask,
            final(self).slot == old(self).slot,
            final(self).read_cursor == old(self).read_cursor + amount,
            final(self).write_cache == old(self).write_cache,
            final(self).published == (if old(self).publishes(amount, publish_now, batch) {
                final(self).read_cursor
            } else {
                old(self).published
            }),
            stored(
                old(gate)@,
                final(gate)@,
                old(self).slot.at(),
                GateSlot { active: true, cursor: final(self).published },
            ),
            final(gate).inv(),
            final(self).inv(final(gate)@),
    {
        self.read_cursor = self.read_cursor.wrapping_add(amount);
        if publish_now || self.read_cursor == self.write_cache || self.read_cursor.wrapping_sub(
            self.published,
        ) >= batch {
            self.flush(gate);
        } else {
            proof {
                assert(gate@.slots =~= old(gate)@.slots.update(
                    self.slot.at(),
                    GateSlot { active: true, cursor: self.published },
                ));
            }
        }
    }

    /// Publish the read cursor.
    pub fn flush(&mut self, gate: &mut Gate)
        requires
            old(gate).inv(),
            old(self).inv(old(gate)@),
        ensures
            *final(self) == (GateConsumer { published: old(self).read_cursor, ..*old(self) }),
            stored(
                old(gate)@,
                final(gate)@,
                old(self).slot.at(),
                GateSlot { active: true, cursor: old(self).read_cursor },
            ),
            final(gate).inv(),
            final(self).inv(final(gate)@),
    {
        let cursor: u64 = guard_sentinel(self.read_cursor);
        gate.registry.store(self.slot, cursor);
        self.published = self.read_cursor;
        proof {
            lemma_stored_inv(old(gate)@, gate@, self.slot.at());
        }
    }

    /// Publish the read cursor if it moved since the last time.
    pub fn flush_pending(&mut self, gate: &mut Gate)
        requires
            old(gate).inv(),
            old(self).inv(old(gate)@),
        ensures
            *final(self) == (GateConsumer { published: old(self).read_cursor, ..*old(self) }),
            stored(
                old(gate)@,
                final(gate)@,
                old(self).slot.at(),
                GateSlot { active: true, cursor: old(self).read_cursor },
            ),
            final(gate).inv(),
            final(self).inv(final(gate)@),
    {
        if self.read_cursor != self.published {
            self.flush(gate);
        } else {
            proof {
                assert(gate@.slots =~= old(gate)@.slots.update(
                    self.slot.at(),
                    GateSlot { active: true, cursor: self.published },
                ));
            }
        }
    }

    /// Publish the read cursor where the slot's cursor stands, if it moved
    /// since the last time. A consumer without such a place only counts it as
    /// published.
    pub fn settle(&mut self, place: Option<&mut u64>)
        ensures
            *final(self) == (GateConsumer { published: old(self).read_cursor, ..*old(self) }),
            place matches Some(cursor) ==> *final(cursor) == (if old(self).read_cursor
                != old(self).published {
                guarded(old(self).read_cursor)
            } else {
                *cursor
            }),
        opens_invariants none
        no_unwind
    {
        if self.read_cursor != self.published {
            match place {
                Some(cursor) => {
                    *cursor = guard_sentinel(self.read_cursor);
                },
                None => {},
            }
            self.published = self.read_cursor;
        }
    }

    /// Leave the registry: publish the last progress, store the sentinel, and
    /// only then give the slot back.
    pub fn detach(self, gate: &mut Gate)
        requires
            old(gate).inv(),
            self.inv(old(gate)@),
        ensures
            stored(
                old(gate)@,
                final(gate)@,
                self.slot.at(),
                GateSlot { active: false, cursor: DETACHED },
            ),
            final(gate).inv(),
    {
        let mut this = self;
        this.flush_pending(gate);
        gate.registry.store(this.slot, DETACHED);
        gate.registry.deactivate(this.slot);
        proof {
            assert(gate@.slots =~= old(gate)@.slots.update(
                self.slot.at(),
                GateSlot { active: false, cursor: DETACHED },
            ));
            lemma_stored_inv(old(gate)@, gate@, self.slot.at());
        }
    }
}

/// A consumer that handed a message out, and where its slot's cursor stands.
/// Its end publishes the progress, unless the message came back.
struct Handover<'a> {
    held: Option<(&'a mut GateConsumer, Option<&'a mut u64>)>,
}

impl<'a> Drop for Handover<'a> {
    fn drop(&mut self)
        opens_invariants none
        no_unwind
    {
        match &mut self.held {
            Some((consumer, Some(place))) => consumer.settle(Some(place)),
            Some((consumer, None)) => consumer.settle(None),
            None => {},
        }
    }
}

/// Hand a message to `h`, in one call. Nothing is published when the call
/// returns; where it unwinds, the consumer [settles](GateConsumer::settle) on
/// the way out.
pub fn hand_over<T: ?Sized, H: Handler<T>>(
    consumer: &mut GateConsumer,
    place: Option<&mut u64>,
    h: &mut H,
    msg: &T,
)
    requires
        old(h).accepts(msg),
    ensures
        old(h).takes(msg, final(h)),
        forall|m: &T| old(h).accepts(m) ==> #[trigger] final(h).accepts(m),
        *final(consumer) == *old(consumer),
        place matches Some(cursor) ==> *final(cursor) == *cursor,
{
    let mut handover = Handover { held: Some((consumer, place)) };
    h.handle(msg);
    match handover.held.take() {
        Some((c, p)) => {
            assert(has_resolved(c));
            assert(has_resolved(p));
        },
        None => {},
    }
}

proof fn lemma_stored_inv(before: GateView, after: GateView, k: int)
    requires
        before.inv(),
        0 <= k < before.slots.len(),
        stored(before, after, k, after.slots[k]),
        holds_back(after.slots[k]) ==> after.slots[k].cursor <= after.tail,
    ensures
        after.inv(),
{
    assert forall|j: int|
        0 <= j < after.slots.len() && holds_back(#[trigger] after.slots[j]) implies
        after.slots[j].cursor <= after.tail by {
        if j != k {
            assert(holds_back(before.slots[j]));
        }
    }
}

/// What the producer publishes reaches every consumer: each has exactly
/// `amount` more units to read, and none is overrun.
pub proof fn publishing_reaches_every_consumer(
    producer: GateProducer,
    consumer: GateConsumer,
    before: GateView,
    after: GateView,
    amount: u64,
)
    requires
        producer.inv(before),
        consumer.inv(before),
        consumer.mask == producer.mask,
        producer.known_lag() + amount <= producer.cap(),
        advanced(before, after, amount as int),
        after.inv(),
    ensures
        consumer.inv(after),
        consumer.unread(after) == consumer.unread(before) + amount,
{
    let k = consumer.slot.at();
    assert(holds_back(before.slots[k]));
    assert(producer.bounded(k, before.slots[k].cursor));
}

/// A consumer's progress, or its departure, keeps the producer's invariant.
pub proof fn progress_keeps_the_producer(
    producer: GateProducer,
    consumer: GateConsumer,
    before: GateView,
    after: GateView,
    slot: GateSlot,
)
    requires
        producer.inv(before),
        consumer.inv(before),
        stored(before, after, consumer.slot.at(), slot),
        holds_back(slot) ==> consumer.published <= slot.cursor <= before.tail,
    ensures
        producer.inv(after),
{
    let k = consumer.slot.at();
    lemma_stored_inv(before, after, k);
    assert(holds_back(before.slots[k]));
    assert forall|j: int|
        0 <= j < after.slots.len() && holds_back(#[trigger] after.slots[j]) implies producer.bounded(
        j,
        after.slots[j].cursor,
    ) && after.tail - after.slots[j].cursor <= producer.cap() by {
        if j != k {
            assert(holds_back(before.slots[j]));
        }
    }
}

/// A consumer's progress, or its departure, leaves every other consumer
/// alone.
pub proof fn progress_keeps_other_consumers(
    mover: GateConsumer,
    other: GateConsumer,
    before: GateView,
    after: GateView,
    slot: GateSlot,
)
    requires
        mover.inv(before),
        other.inv(before),
        mover.slot.at() != other.slot.at(),
        stored(before, after, mover.slot.at(), slot),
        holds_back(slot) ==> slot.cursor <= before.tail,
    ensures
        other.inv(after),
        other.unread(after) == other.unread(before),
{
    lemma_stored_inv(before, after, mover.slot.at());
}

/// A join keeps the producer's invariant, and the slot it takes belongs to no
/// other consumer, whose invariant stands too.
pub proof fn a_join_keeps_everyone(
    producer: GateProducer,
    other: GateConsumer,
    before: GateView,
    after: GateView,
    k: int,
)
    requires
        joined(before, after, k),
        after.inv(),
    ensures
        producer.inv(before) ==> producer.inv(after),
        other.inv(before) ==> other.slot.at() != k && other.inv(after) && other.unread(after)
            == other.unread(before),
{
    if producer.inv(before) {
        assert forall|j: int|
            0 <= j < after.slots.len() && holds_back(#[trigger] after.slots[j]) implies
            producer.bounded(j, after.slots[j].cursor) && after.tail
            - after.slots[j].cursor <= producer.cap() by {
            if j != k {
                assert(j < before.slots.len());
                assert(holds_back(before.slots[j]));
            }
        }
    }
    if other.inv(before) {
        assert(!vacant(before.slots[other.slot.at()]));
    }
}

/// A consumer that leaves stops holding the producer back.
pub proof fn a_departed_consumer_never_gates(before: GateView, after: GateView, k: int)
    requires
        0 <= k < before.slots.len(),
        stored(before, after, k, GateSlot { active: false, cursor: DETACHED }),
    ensures
        !holds_back(after.slots[k]),
        forall|needed: int, capacity: int|
            before.open_for(needed, capacity) ==> #[trigger] after.open_for(needed, capacity),
{
    assert forall|needed: int, capacity: int|
        before.open_for(needed, capacity) implies #[trigger] after.open_for(needed, capacity) by {
        assert forall|j: int|
            0 <= j < after.slots.len() && holds_back(#[trigger] after.slots[j]) implies
            after.tail + needed - after.slots[j].cursor <= capacity by {
            assert(holds_back(before.slots[j]));
        }
    }
}

/// The producer's count of what is unread never falls short of what a
/// registered consumer has pending.
pub proof fn the_producer_never_undercounts(
    producer: GateProducer,
    consumer: GateConsumer,
    gate: GateView,
)
    requires
        producer.inv(gate),
        consumer.inv(gate),
    ensures
        consumer.unread(gate) <= producer.known_lag(),
{
    let k = consumer.slot.at();
    assert(holds_back(gate.slots[k]));
    assert(producer.bounded(k, gate.slots[k].cursor));
}

/// The producer's view of a full ring: it looks full exactly where the count is
/// the capacity; it looks full where a consumer has a ring full pending; and
/// where it does not look full there is room.
pub proof fn a_full_ring_looks_full(
    producer: GateProducer,
    consumer: GateConsumer,
    gate: GateView,
)
    requires
        producer.inv(gate),
    ensures
        (producer.known_lag() + 1 > producer.cap()) == (producer.known_lag() == producer.cap()),
        consumer.inv(gate) && consumer.unread(gate) == producer.cap() ==> producer.known_lag()
            == producer.cap(),
        producer.known_lag() != producer.cap() ==> gate.open_for(1, producer.cap()),
{
    if consumer.inv(gate) {
        the_producer_never_undercounts(producer, consumer, gate);
    }
    if producer.known_lag() != producer.cap() {
        a_grant_leaves_room(producer, gate, 1);
    }
}

/// Consuming defers less than `batch` units of progress, or none.
pub proof fn a_deferral_is_bounded(
    before: GateConsumer,
    after: GateConsumer,
    amount: u64,
    publish_now: bool,
    batch: u64,
)
    requires
        0 < batch,
        before.published <= before.read_cursor,
        before.read_cursor + amount <= u64::MAX,
        after.read_cursor == before.read_cursor + amount,
        after.published == (if before.publishes(amount, publish_now, batch) {
            after.read_cursor
        } else {
            before.published
        }),
    ensures
        0 <= after.read_cursor - after.published < batch,
{
}

/// What is granted is free: every registered consumer leaves room for it.
pub proof fn a_grant_leaves_room(producer: GateProducer, gate: GateView, needed: int)
    requires
        producer.inv(gate),
        producer.known_lag() + needed <= producer.cap(),
    ensures
        gate.open_for(needed, producer.cap()),
{
    assert forall|k: int| 0 <= k < gate.slots.len() && holds_back(#[trigger] gate.slots[k]) implies
        gate.tail + needed - gate.slots[k].cursor <= producer.cap() by {
        assert(producer.bounded(k, gate.slots[k].cursor));
    }
}

/// With nobody registered the producer runs freely.
pub proof fn nobody_registered_never_gates(gate: GateView, needed: int, capacity: int)
    requires
        forall|k: int| 0 <= k < gate.slots.len() ==> !(#[trigger] gate.slots[k]).active,
    ensures
        gate.open_for(needed, capacity),
{
}

/// The moment a joining consumer's bit is set, whatever its provisional
/// cursor, the producer knows of nothing beyond its published cursor: the
/// join point that the consumer reads next is already out of its reach.
pub proof fn a_visible_joiner_is_bounded(producer: GateProducer, gate: GateView, k: int)
    requires
        producer.tracks(gate),
    ensures
        producer.bounded(k, gate.tail),
{
}

/// Between the moment its bit is set (with the producer at `floor`) and the
/// moment it has read its join point, nothing that the producer publishes
/// overwrites what the joining consumer will be handed: a grant never reaches
/// one lap past `floor`, and the bound stands for the next grant.
pub proof fn a_joiner_is_never_lapped(
    before: GateProducer,
    asked: GateProducer,
    after: GateProducer,
    gate: GateView,
    needed: u64,
    k: int,
    floor: u64,
)
    requires
        before.tracks(gate),
        gate.inv(),
        0 <= k < gate.slots.len(),
        holds_back(gate.slots[k]),
        gate.slots[k].cursor <= floor,
        before.bounded(k, floor),
        0 < needed < before.cap(),
        before.asked(&asked, gate, needed),
        asked.known_lag() + needed <= asked.cap(),
        asked.next_seq + needed <= MAX_CURSOR,
        after == (GateProducer { next_seq: (asked.next_seq + needed) as u64, ..asked }),
    ensures
        after.next_seq - floor <= after.cap(),
        after.bounded(k, floor),
{
    if before.known_lag() + needed > before.cap() {
        rescan_respects_registered_slots(before, asked, gate, needed, k, floor);
        lemma_rescan_tracks(before, asked, gate, needed);
    }
    if k < asked.copies().len() {
        assert(lag(asked.next_seq, asked.copies()[k]) <= asked.next_seq + asked.cap());
    }
}

/// A batch that is cut short keeps its progress: where a consumer that moved
/// forward without publishing settles, it is in order again, its slot holds the
/// producer back no further than its read cursor, and nothing that it has not
/// read is lost or handed out twice.
pub proof fn a_settled_consumer_is_in_order(
    before: GateConsumer,
    after: GateConsumer,
    gate: GateView,
    gate_after: GateView,
)
    requires
        before.inv(gate),
        after == (GateConsumer { published: before.read_cursor, ..before }),
        stored(
            gate,
            gate_after,
            before.slot.at(),
            GateSlot {
                active: true,
                cursor: if before.read_cursor != before.published {
                    guarded(before.read_cursor)
                } else {
                    before.published
                },
            },
        ),
    ensures
        after.inv(gate_after),
        after.unread(gate_after) == before.unread(gate),
        gate_after.slots[after.slot.at()].cursor == after.read_cursor,
{
    lemma_stored_inv(gate, gate_after, before.slot.at());
}

/// There is room for some units exactly where no registered consumer would be
/// more than a ring behind with them; a slot that is not taken, or whose holder
/// is leaving, does not count.
pub proof fn room_is_counted_from_the_slowest(gate: GateView, needed: int, capacity: int)
    ensures
        gate.open_for(needed, capacity) <==> forall|k: int|
            0 <= k < gate.slots.len() && (#[trigger] gate.slots[k]).active && gate.slots[k].cursor
                != u64::MAX ==> gate.tail + needed - gate.slots[k].cursor <= capacity,
        gate.slots.len() == 0 ==> gate.open_for(needed, capacity),
{
    assert(forall|k: int|
        0 <= k < gate.slots.len() ==> holds_back(#[trigger] gate.slots[k]) == (gate.slots[k].active
            && gate.slots[k].cursor != u64::MAX));
    if gate.open_for(needed, capacity) {
        assert forall|k: int|
            0 <= k < gate.slots.len() && (#[trigger] gate.slots[k]).active && gate.slots[k].cursor
                != u64::MAX implies gate.tail + needed - gate.slots[k].cursor <= capacity by {
            assert(holds_back(gate.slots[k]));
        }
    }
}

/// A published cursor is told as it is; only the last one of all, which marks a
/// slot without a holder, is told as the one before it.
pub proof fn a_cursor_is_told_as_it_is(cursor: u64)
    ensures
        guarded(cursor) != u64::MAX,
        cursor != u64::MAX ==> guarded(cursor) == cursor,
        cursor == u64::MAX ==> guarded(cursor) == cursor - 1,
{
}

/// Where a request is refused, the producer's count is exact: it is the lag of
/// some registered consumer, for whom there is not enough room.
pub proof fn a_refusal_knows_the_slowest(
    producer: GateProducer,
    after: GateProducer,
    gate: GateView,
    needed: u64,
)
    requires
        producer.inv(gate),
        0 < needed < producer.cap(),
        producer.asked(&after, gate, needed),
        after.inv(gate),
        !gate.open_for(needed as int, producer.cap()),
    ensures
        exists|k: int|
            0 <= k < gate.slots.len() && (#[trigger] gate.slots[k]).active && gate.slots[k].cursor
                != u64::MAX && gate.tail - gate.slots[k].cursor == after.known_lag(),
        after.known_lag() + needed > producer.cap(),
        after.next_seq == producer.next_seq,
        after.mask == producer.mask,
{
    if producer.known_lag() + needed <= producer.cap() {
        a_grant_leaves_room(producer, gate, needed as int);
    }
    if after.known_lag() + needed <= after.cap() {
        a_grant_leaves_room(after, gate, needed as int);
    }
    let n = gate.slots.len() as int;
    let cap = producer.cap() as u64;
    let seed = producer.next_seq.wrapping_sub(cap);
    let report = choose|report: (bool, u64)| #[trigger]
        walked(gate.slots, producer.copies(), n, producer.next_seq, needed, cap, report)
            && after.cached_min == producer.next_seq.wrapping_sub(
            if report.0 {
                report.1
            } else {
                1
            },
        );
    let count = |k: int|
        counted(
            gate.slots[k],
            copy_at(producer.copies(), k, seed),
            producer.next_seq,
            needed,
            cap,
        );
    assert(report.0);
    let k = choose|k: int|
        0 <= k < n && ((#[trigger] count(k)) matches Some(c) && lag(producer.next_seq, c)
            == report.1);
    assert(count(k) is Some);
    assert(gate.slots[k].active);
}

/// A consumer that joins counts as one more, and one that leaves as one less.
pub proof fn joining_and_leaving_are_counted(
    before: GateView,
    after: GateView,
    k: int,
    left: GateView,
    j: int,
)
    ensures
        joined(before, after, k) ==> active_in(after.slots) == active_in(before.slots) + 1,
        0 <= j < before.slots.len() && before.slots[j].active && stored(
            before,
            left,
            j,
            GateSlot { active: false, cursor: DETACHED },
        ) ==> active_in(left.slots) == active_in(before.slots) - 1,
{
    every_active_slot_is_counted_once(before.slots);
    every_active_slot_is_counted_once(after.slots);
    every_active_slot_is_counted_once(left.slots);
    if joined(before, after, k) {
        assert(active_set(after.slots) =~= active_set(before.slots).insert(k));
        assert(!active_set(before.slots).contains(k));
    }
    if 0 <= j < before.slots.len() && before.slots[j].active && stored(
        before,
        left,
        j,
        GateSlot { active: false, cursor: DETACHED },
    ) {
        assert(active_set(left.slots) =~= active_set(before.slots).remove(j));
        assert(active_set(before.slots).contains(j));
    }
}

} // verus!
