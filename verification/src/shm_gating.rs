//! Shared-memory rings that hold the producer back: making one, attaching to
//! it, retiring consumers that died, and taking everything over.

use crate::arith::{ring_capacity, MAX_CURSOR};
use crate::attach::{
    anchored_open, gating_open, lemma_room, open_anch_region, open_spmc_region, AnchOpened,
};
use crate::bytelog::ByteReader;
use crate::create::{anchored_region, create_anch_region, create_spmc_region, gating_region};
use crate::cursor::{round_capacity, rounded};
use crate::gate::{GateConsumer, GateProducer};
use crate::gate_shm::{gate_of, resumed, table_slot, GateShmConsumer, GateShmProducer};
use crate::region::{
    closed_generation, control, control_at, cursor_at, detached_table, epoch_of, layout_len,
    len_result, read_u64, slot_at, slot_word, state_of, store_u64, table_fits, word, words_for,
    ShmError, ANCH_BYTES_TABLE_OFFSET, ANCH_ELEMS_TABLE_OFFSET, KIND_ANCH_BYTES, KIND_ANCH_ELEMS,
    KIND_SPMC_BYTES, KIND_SPMC_ELEMS, OFF_AUX, OFF_CLOSED, OFF_GENERATION, OFF_INTENT, OFF_LATEST,
    OFF_WRITE_CURSOR, SLOT_CONTROL, SLOT_CURSOR, SPMC_TABLE_OFFSET, STATE_FREE,
};
use crate::registry::{guard_sentinel, guarded, GateSlot, DETACHED};
use crate::seqlock::SlotReader;
use crate::shm::{
    check_elem_type, check_slot_type, elem_fault, lemma_capacity, role_result, sized, slot_fault,
    stride_of, take_role, elem_of, elem_type, ShmItem,
};
use crate::spmc::SubscribeError;
use crate::table::{
    claim_table_slot, first_free, force_detach_table_slot, largest_lag, release_table_claim,
    reset_gate_table, reset_word, resume_lag, retired, with_claim, without_claim, Role, SlotClaim,
};
use vstd::prelude::*;

verus! {

/// A validated gating ring: what its constructors need to know.
#[derive(Clone, Copy)]
pub struct GateOpened {
    pub capacity: usize,
    pub max_slots: usize,
    pub table_offset: usize,
    pub generation: u64,
}

/// The table of a validated ring lies in the region, and its capacity is one
/// that a ring can have.
pub open spec fn fits(opened: GateOpened, region: Seq<u64>) -> bool {
    &&& table_fits(region, opened.table_offset as int, opened.max_slots as int)
    &&& opened.max_slots >= 1
    &&& ring_capacity(opened.capacity as int)
}

/// The outcome of attaching to a gating ring as its producer: a new producer
/// opens the ring again.
pub open spec fn producer_attached(
    before: Seq<u64>,
    after: Seq<u64>,
    opened: GateOpened,
    token: u64,
    force: bool,
    pid: u32,
    r: Result<GateShmProducer, ShmError>,
) -> bool {
    match role_result(before, Role::Producer, opened.generation, token, force) {
        Err(e) => r == Err::<GateShmProducer, ShmError>(e) && after == before,
        Ok(_) => {
            &&& after == before.update(5, token).update(17, 0)
            &&& r == Ok::<GateShmProducer, ShmError>(
                GateShmProducer {
                    token,
                    owner_pid: pid,
                    max_slots: opened.max_slots,
                    table_offset: opened.table_offset,
                },
            )
        },
    }
}

/// Take the producer's role of a gating ring.
pub fn attach_producer_anchor(
    region: &mut [u64],
    opened: GateOpened,
    token: u64,
    force: bool,
    pid: u32,
) -> (r: Result<GateShmProducer, ShmError>)
    requires
        fits(opened, old(region)@),
        token != 0,
    ensures
        producer_attached(old(region)@, final(region)@, opened, token, force, pid, r),
{
    match take_role(region, Role::Producer, opened.generation, token, force) {
        Err(e) => Err(e),
        Ok(token) => {
            store_u64(region, OFF_CLOSED, 0);
            Ok(
                GateShmProducer {
                    token,
                    owner_pid: pid,
                    max_slots: opened.max_slots,
                    table_offset: opened.table_offset,
                },
            )
        },
    }
}

/// The outcome of attaching to a gating ring as a consumer: refused where the
/// ring is closed, where no slot is free, and where the region was
/// re-initialised since it was validated.
pub open spec fn consumer_attached(
    before: Seq<u64>,
    after: Seq<u64>,
    opened: GateOpened,
    token: u64,
    pid: u32,
    table_full: ShmError,
    r: Result<GateShmConsumer, ShmError>,
) -> bool {
    let table = opened.table_offset as int;
    let n = opened.max_slots as int;
    if word(before, OFF_CLOSED as int) != 0 {
        r == Err::<GateShmConsumer, ShmError>(ShmError::Closed) && after == before
    } else if first_free(before, table, n, n) {
        r == Err::<GateShmConsumer, ShmError>(table_full) && after == before
    } else if word(before, OFF_GENERATION as int) != opened.generation {
        &&& r == Err::<GateShmConsumer, ShmError>(ShmError::ReinitializedWhileAttaching)
        &&& exists|claim: SlotClaim| #[trigger]
            claims(before, opened, token, claim) && after == with_claim(before, table, claim)
    } else {
        &&& r is Ok
        &&& claims(before, opened, token, r->Ok_0.claim)
        &&& after == with_claim(before, table, r->Ok_0.claim)
        &&& r->Ok_0.owner_pid == pid
        &&& r->Ok_0.max_slots == opened.max_slots
        &&& r->Ok_0.table_offset == opened.table_offset
    }
}

/// A claim on the first free slot of a table: a new epoch, the claimant's
/// token, and the published cursor as the join point.
pub open spec fn claims(
    region: Seq<u64>,
    opened: GateOpened,
    token: u64,
    claim: SlotClaim,
) -> bool {
    let table = opened.table_offset as int;
    &&& claim.slot < opened.max_slots
    &&& first_free(region, table, opened.max_slots as int, claim.slot as int)
    &&& claim.epoch == epoch_of(control_at(region, table, claim.slot as int)).wrapping_add(1)
    &&& claim.token == token
    &&& claim.joined == word(region, OFF_WRITE_CURSOR as int)
}

/// Claim a slot of a gating ring.
pub fn attach_consumer_anchor(
    region: &mut [u64],
    opened: GateOpened,
    token: u64,
    pid: u32,
    table_full: ShmError,
) -> (r: Result<GateShmConsumer, ShmError>)
    requires
        fits(opened, old(region)@),
        token != 0,
    ensures
        consumer_attached(old(region)@, final(region)@, opened, token, pid, table_full, r),
{
    if read_u64(region, OFF_CLOSED) != 0 {
        return Err(ShmError::Closed);
    }
    match claim_table_slot(region, opened.table_offset, opened.max_slots, token) {
        None => Err(table_full),
        Some(claim) => {
            proof {
                assert(claims(old(region)@, opened, token, claim));
            }
            if read_u64(region, OFF_GENERATION) != opened.generation {
                release_table_claim(
                    region,
                    opened.table_offset,
                    opened.max_slots,
                    &claim,
                    opened.generation,
                );
                return Err(ShmError::ReinitializedWhileAttaching);
            }
            Ok(GateShmConsumer::new(claim, pid, opened.max_slots, opened.table_offset))
        },
    }
}

/// A table after everything was taken over: every slot was freed, and the
/// first is held by the new consumer, which resumes at `resume`.
pub open spec fn table_recovered(
    before: Seq<u64>,
    after: Seq<u64>,
    opened: GateOpened,
    consumer: u64,
    claim: SlotClaim,
    resume: u64,
) -> bool {
    let table = opened.table_offset as int;
    let n = opened.max_slots as int;
    let tail = word(before, OFF_WRITE_CURSOR as int);
    let cleared = Seq::new(
        before.len(),
        |i: int|
            if i == 7 {
                closed_generation(before[7])
            } else {
                reset_word(before, i, table, n)
            },
    );
    &&& exists|furthest: u64| #[trigger]
        largest_lag(before, table, n, tail, opened.capacity as u64, furthest as nat) && resume
            == tail.wrapping_sub(furthest)
    &&& claim == (SlotClaim {
        slot: 0,
        epoch: epoch_of(control_at(before, table, 0)).wrapping_add(1).wrapping_add(1),
        token: consumer,
        joined: tail,
    })
    &&& after == with_claim(cleared, table, claim).update(
        slot_word(table, 0, SLOT_CURSOR as int),
        guarded(resume),
    )
}

/// Free every slot of a table and claim the first for a consumer that resumes
/// where the slowest one stood. The claim and the resume point.
fn recover_table(region: &mut [u64], opened: GateOpened, consumer: u64) -> (r: (SlotClaim, u64))
    requires
        fits(opened, old(region)@),
        consumer != 0,
    ensures
        table_recovered(old(region)@, final(region)@, opened, consumer, r.0, r.1),
{
    let len: usize = region.len();
    let resume: u64 = reset_gate_table(
        region,
        opened.table_offset,
        opened.max_slots,
        opened.capacity as u64,
    );
    let ghost cleared = region@;
    proof {
        let table = opened.table_offset as int;
        let w = slot_word(table, 0, SLOT_CONTROL as int);
        assert((w - table / 8) % 16 == 1);
        assert(state_of(control_at(cleared, table, 0)) == STATE_FREE);
        assert(epoch_of(control_at(cleared, table, 0)) == epoch_of(
            control_at(old(region)@, table, 0),
        ).wrapping_add(1));
    }
    match claim_table_slot(region, opened.table_offset, opened.max_slots, consumer) {
        Some(claim) => {
            proof {
                if claim.slot > 0 {
                    assert(state_of(control_at(cleared, opened.table_offset as int, 0))
                        != STATE_FREE);
                }
            }
            let at: usize = slot_at(opened.table_offset, claim.slot, SLOT_CURSOR);
            region[at] = guard_sentinel(resume);
            (claim, resume)
        },
        None => {
            proof {
                assert(state_of(control_at(cleared, opened.table_offset as int, 0))
                    != STATE_FREE);
            }
            (SlotClaim { slot: 0, epoch: 0, token: 0, joined: 0 }, resume)
        },
    }
}

/// Nothing that a registered consumer had not published as consumed is lost:
/// the resume point is at or before the cursor of every consumer that held a
/// slot, up to those more than a lap behind, who had lost their claim.
pub proof fn recovery_resumes_at_the_slowest(
    before: Seq<u64>,
    after: Seq<u64>,
    opened: GateOpened,
    consumer: u64,
    claim: SlotClaim,
    resume: u64,
    slot: int,
)
    requires
        table_recovered(before, after, opened, consumer, claim, resume),
        0 <= slot < opened.max_slots,
        state_of(control_at(before, opened.table_offset as int, slot)) != STATE_FREE,
        cursor_at(before, opened.table_offset as int, slot) != DETACHED,
        cursor_at(before, opened.table_offset as int, slot) <= word(
            before,
            OFF_WRITE_CURSOR as int,
        ),
        word(before, OFF_WRITE_CURSOR as int) - cursor_at(
            before,
            opened.table_offset as int,
            slot,
        ) <= opened.capacity,
        forall|k: int|
            0 <= k < opened.max_slots ==> {
                let cursor = #[trigger] cursor_at(
                    before,
                    opened.table_offset as int,
                    k,
                );
                cursor == DETACHED || cursor <= word(before, OFF_WRITE_CURSOR as int)
            },
    ensures
        resume <= cursor_at(before, opened.table_offset as int, slot),
        word(before, OFF_WRITE_CURSOR as int) - resume <= opened.capacity,
{
    let table = opened.table_offset as int;
    let tail = word(before, OFF_WRITE_CURSOR as int);
    let furthest = choose|furthest: u64| #[trigger]
        largest_lag(
            before,
            table,
            opened.max_slots as int,
            tail,
            opened.capacity as u64,
            furthest as nat,
        ) && resume == tail.wrapping_sub(furthest);
    assert(resume_lag(before, table, slot, tail, opened.capacity as u64) <= furthest);
    if furthest > 0 {
        let k = choose|k: int|
            0 <= k < opened.max_slots && #[trigger] resume_lag(
                before,
                table,
                k,
                tail,
                opened.capacity as u64,
            ) == furthest;
        assert(resume_lag(before, table, k, tail, opened.capacity as u64) == furthest);
        let slowest = cursor_at(before, table, k);
    }
}

/// What sets the gating rings apart.
#[derive(Clone, Copy)]
pub struct GateKind {
    pub kind: u32,
    pub unit_size: usize,
    /// Bytes per unit of capacity.
    pub stride: usize,
    pub min_capacity: usize,
    /// Published cursors are multiples of this.
    pub align: u64,
    pub table_offset: usize,
    /// The ring has observers too: the header carries slack and stride.
    pub anchored: bool,
    /// The ring carries byte messages: the word beside the cursor says that
    /// the producer is out of space.
    pub bytes: bool,
}

impl GateKind {
    /// The parameters are those of a ring.
    pub open spec fn inv(&self) -> bool {
        &&& self.stride >= 1
        &&& self.align > 0
        &&& self.table_offset % 8 == 0
        &&& self.table_offset >= 384
        &&& !self.anchored ==> self.stride == self.unit_size && self.table_offset
            == SPMC_TABLE_OFFSET
        &&& self.anchored && self.bytes ==> self.table_offset >= ANCH_BYTES_TABLE_OFFSET
    }

    /// The error for a table without a free slot.
    pub open spec fn table_full(&self) -> ShmError {
        if self.anchored {
            ShmError::AnchorTableFull
        } else {
            ShmError::ConsumerTableFull
        }
    }
}

/// What making a gating ring comes to: the region, or the error.
pub open spec fn create_result(
    before: Seq<u64>,
    k: GateKind,
    capacity: usize,
    max_slots: usize,
    slack: u64,
    producer: u64,
) -> Result<Seq<u64>, ShmError> {
    let len = layout_len(
        capacity as int,
        k.stride as int,
        k.table_offset as int,
        max_slots as int,
    );
    if max_slots == 0 {
        Err(
            if k.anchored {
                ShmError::NoAnchorSlots
            } else {
                ShmError::NoConsumerSlots
            },
        )
    } else if max_slots > u32::MAX {
        Err(
            if k.anchored {
                ShmError::TooManyAnchorSlots
            } else {
                ShmError::TooManyConsumerSlots
            },
        )
    } else {
        match len_result(len) {
            Err(e) => Err(e),
            Ok(_) => Ok(
                if k.anchored {
                    anchored_region(
                        before,
                        k.kind,
                        capacity,
                        k.unit_size,
                        k.stride,
                        k.table_offset,
                        max_slots,
                        slack,
                        producer,
                    )
                } else {
                    gating_region(before, k.kind, capacity, k.unit_size, max_slots, producer)
                },
            ),
        }
    }
}

/// What opening a gating ring comes to.
pub open spec fn open_result(region: Seq<u64>, file_len: u64, k: GateKind) -> Result<
    GateOpened,
    ShmError,
> {
    if k.anchored {
        match anchored_open(
            region,
            file_len,
            k.kind,
            k.unit_size,
            k.stride,
            k.table_offset,
            k.min_capacity,
            k.align,
        ) {
            Err(e) => Err(e),
            Ok(o) => Ok(
                GateOpened {
                    capacity: o.capacity,
                    max_slots: o.max_anchors,
                    table_offset: k.table_offset,
                    generation: o.generation,
                },
            ),
        }
    } else {
        match gating_open(region, file_len, k.kind, k.unit_size, k.min_capacity, k.align) {
            Err(e) => Err(e),
            Ok(o) => Ok(
                GateOpened {
                    capacity: o.capacity,
                    max_slots: o.max_consumers,
                    table_offset: k.table_offset,
                    generation: o.generation,
                },
            ),
        }
    }
}

fn open_gate(region: &[u64], file_len: u64, k: GateKind) -> (r: Result<GateOpened, ShmError>)
    requires
        words_for(file_len as int) <= region@.len(),
        k.inv(),
    ensures
        r == open_result(region@, file_len, k),
        r matches Ok(opened) ==> fits(opened, region@),
{
    if k.anchored {
        match open_anch_region(
            region,
            file_len,
            k.kind,
            k.unit_size,
            k.stride,
            k.table_offset,
            k.min_capacity,
            k.align,
        ) {
            Err(e) => Err(e),
            Ok(o) => {
                proof {
                    lemma_capacity(
                        o.capacity as int,
                        k.stride as int,
                        k.table_offset as int,
                        o.max_anchors as int,
                    );
                }
                Ok(
                    GateOpened {
                        capacity: o.capacity,
                        max_slots: o.max_anchors,
                        table_offset: k.table_offset,
                        generation: o.generation,
                    },
                )
            },
        }
    } else {
        match open_spmc_region(region, file_len, k.kind, k.unit_size, k.min_capacity, k.align) {
            Err(e) => Err(e),
            Ok(o) => {
                proof {
                    lemma_capacity(
                        o.capacity as int,
                        k.unit_size as int,
                        SPMC_TABLE_OFFSET as int,
                        o.max_consumers as int,
                    );
                }
                Ok(
                    GateOpened {
                        capacity: o.capacity,
                        max_slots: o.max_consumers,
                        table_offset: k.table_offset,
                        generation: o.generation,
                    },
                )
            },
        }
    }
}

/// The table of a ring that can be opened lies in the region, and its capacity
/// is one that a ring of its kind can have.
pub proof fn what_opens_fits(region: Seq<u64>, file_len: u64, k: GateKind)
    requires
        words_for(file_len as int) <= region.len(),
        k.inv(),
        open_result(region, file_len, k) is Ok,
    ensures
        fits(open_result(region, file_len, k)->Ok_0, region),
        open_result(region, file_len, k)->Ok_0.table_offset == k.table_offset,
        open_result(region, file_len, k)->Ok_0.capacity >= k.min_capacity,
{
    let o = open_result(region, file_len, k)->Ok_0;
    let stride = if k.anchored {
        k.stride as int
    } else {
        k.unit_size as int
    };
    lemma_room(o.capacity as int, stride, k.table_offset as int, o.max_slots as int);
    lemma_capacity(o.capacity as int, stride, k.table_offset as int, o.max_slots as int);
}

/// A producer and a consumer of a gating ring, each with its shared-memory
/// side.
pub struct GateHandles {
    pub producer: GateProducer,
    pub producer_side: GateShmProducer,
    pub consumer: GateConsumer,
    pub consumer_side: GateShmConsumer,
}

/// The private side of a consumer that reads from `read_cursor` on.
pub open spec fn reading_from(claim: SlotClaim, capacity: usize, read_cursor: u64) -> GateConsumer {
    GateConsumer {
        mask: (capacity - 1) as u64,
        slot: table_slot(claim.slot as int),
        read_cursor,
        published: guarded(read_cursor),
        write_cache: read_cursor,
    }
}

/// A fresh ring as its makers see it.
pub open spec fn fresh_opened(
    region: Seq<u64>,
    k: GateKind,
    capacity: usize,
    max_slots: usize,
) -> GateOpened {
    GateOpened {
        capacity,
        max_slots,
        table_offset: k.table_offset,
        generation: word(region, OFF_GENERATION as int),
    }
}

/// The outcome of making a gating ring: the producer's role and one slot are
/// taken.
pub open spec fn gate_created(
    before: Seq<u64>,
    after: Seq<u64>,
    k: GateKind,
    capacity: usize,
    max_slots: usize,
    slack: u64,
    producer: u64,
    consumer: u64,
    pid: u32,
    r: Result<GateHandles, ShmError>,
) -> bool {
    match create_result(before, k, capacity, max_slots, slack, producer) {
        Err(e) => r == Err::<GateHandles, ShmError>(e) && after == before,
        Ok(made) => {
            &&& r is Ok
            &&& claims(
                made,
                fresh_opened(made, k, capacity, max_slots),
                consumer,
                r->Ok_0.consumer_side.claim,
            )
            &&& after == with_claim(made, k.table_offset as int, r->Ok_0.consumer_side.claim)
            &&& r->Ok_0.producer_side == (GateShmProducer {
                token: producer,
                owner_pid: pid,
                max_slots,
                table_offset: k.table_offset,
            })
            &&& r->Ok_0.consumer_side.owner_pid == pid
            &&& r->Ok_0.consumer_side.max_slots == max_slots
            &&& r->Ok_0.consumer_side.table_offset == k.table_offset
            &&& resumed(
                r->Ok_0.producer,
                gate_of(after, k.table_offset as int, max_slots as int),
                capacity as int,
            )
            &&& r->Ok_0.consumer == reading_from(
                r->Ok_0.consumer_side.claim,
                capacity,
                r->Ok_0.consumer_side.claim.joined,
            )
        },
    }
}

fn gate_create(
    region: &mut [u64],
    k: GateKind,
    capacity: usize,
    max_slots: usize,
    slack: u64,
    producer: u64,
    consumer: u64,
    pid: u32,
) -> (r: Result<GateHandles, ShmError>)
    requires
        k.inv(),
        vstd::arithmetic::power2::is_pow2(capacity as int),
        capacity > 0,
        producer != 0,
        consumer != 0,
        sized(
            old(region)@,
            capacity as int,
            k.stride as int,
            k.table_offset as int,
            max_slots as int,
        ),
    ensures
        gate_created(
            old(region)@,
            final(region)@,
            k,
            capacity,
            max_slots,
            slack,
            producer,
            consumer,
            pid,
            r,
        ),
{
    let made: Result<(), ShmError> = if k.anchored {
        create_anch_region(
            region,
            k.kind,
            capacity,
            k.unit_size,
            k.stride,
            k.table_offset,
            max_slots,
            slack,
            producer,
        )
    } else {
        create_spmc_region(region, k.kind, capacity, k.unit_size, max_slots, producer)
    };
    match made {
        Err(e) => return Err(e),
        Ok(()) => {},
    }
    let ghost fresh = region@;
    proof {
        lemma_capacity(
            capacity as int,
            k.stride as int,
            k.table_offset as int,
            max_slots as int,
        );
        let w = slot_word(k.table_offset as int, 0, SLOT_CONTROL as int);
        assert(!detached_table(w, k.table_offset as int, max_slots as int));
        assert(fresh[w] == 0);
        assert(state_of(control_at(fresh, k.table_offset as int, 0)) == STATE_FREE);
    }
    match claim_table_slot(region, k.table_offset, max_slots, consumer) {
        None => {
            proof {
                assert(state_of(control_at(fresh, k.table_offset as int, 0)) != STATE_FREE);
            }
            Err(ShmError::ConsumerTableFull)
        },
        Some(claim) => {
            let producer_side = GateShmProducer {
                token: producer,
                owner_pid: pid,
                max_slots,
                table_offset: k.table_offset,
            };
            let consumer_side = GateShmConsumer::new(claim, pid, max_slots, k.table_offset);
            let producer_core = GateProducer::from_shm(region, &producer_side, capacity);
            let consumer_core = GateConsumer::from_shm(&claim, capacity, claim.joined);
            Ok(
                GateHandles {
                    producer: producer_core,
                    producer_side,
                    consumer: consumer_core,
                    consumer_side,
                },
            )
        },
    }
}

/// The region after the counters of a byte ring with observers were repaired:
/// where a producer died between declaring and committing, the jump target may
/// point into what it never committed, and is set to the committed end.
pub open spec fn healed(region: Seq<u64>) -> Seq<u64> {
    if word(region, OFF_INTENT as int) != word(region, OFF_WRITE_CURSOR as int) {
        region.update(48, word(region, OFF_WRITE_CURSOR as int))
    } else {
        region
    }
}

/// The floor of a new producer's declarations: nothing that was declared
/// before is ever declared less.
pub open spec fn floor_of(region: Seq<u64>) -> u64 {
    if word(region, OFF_INTENT as int) > word(region, OFF_WRITE_CURSOR as int) {
        word(region, OFF_INTENT as int)
    } else {
        word(region, OFF_WRITE_CURSOR as int)
    }
}

/// Repair the counters of a byte ring with observers. The floor of the new
/// producer's declarations.
pub fn bytes_heal_on_attach(region: &mut [u64]) -> (floor: u64)
    requires
        old(region)@.len() >= 49,
    ensures
        final(region)@ == healed(old(region)@),
        floor == floor_of(old(region)@),
{
    let tail: u64 = read_u64(region, OFF_WRITE_CURSOR);
    let intent: u64 = read_u64(region, OFF_INTENT);
    if intent != tail {
        store_u64(region, OFF_LATEST, tail);
    }
    if intent > tail {
        intent
    } else {
        tail
    }
}

/// What a new producer repairs: a byte ring says that it is not starving, and
/// one with observers has its counters put in order.
pub open spec fn repaired(region: Seq<u64>, k: GateKind) -> Seq<u64> {
    let quiet = if k.bytes {
        region.update(18, 0)
    } else {
        region
    };
    if k.bytes && k.anchored {
        healed(quiet)
    } else {
        quiet
    }
}

/// The floor of a new producer's declarations; zero where nothing is declared.
pub open spec fn floor_for(region: Seq<u64>, k: GateKind) -> u64 {
    if k.bytes && k.anchored {
        floor_of(region)
    } else {
        0
    }
}

fn repair(region: &mut [u64], k: GateKind) -> (floor: u64)
    requires
        old(region)@.len() >= 49,
    ensures
        final(region)@ == repaired(old(region)@, k),
        floor == floor_for(old(region)@, k),
        final(region)@.len() == old(region)@.len(),
{
    if k.bytes {
        store_u64(region, OFF_AUX, 0);
        if k.anchored {
            return bytes_heal_on_attach(region);
        }
    }
    0
}

/// The outcome of attaching to a gating ring as its producer: the handle, its
/// shared-memory side, and the floor of its declarations.
pub open spec fn gate_producer_attached(
    before: Seq<u64>,
    after: Seq<u64>,
    k: GateKind,
    opened: Result<GateOpened, ShmError>,
    token: u64,
    force: bool,
    pid: u32,
    r: Result<(GateProducer, GateShmProducer, u64), ShmError>,
) -> bool {
    match opened {
        Err(e) => r is Err && r->Err_0 == e && after == before,
        Ok(o) => match role_result(before, Role::Producer, o.generation, token, force) {
            Err(e) => r is Err && r->Err_0 == e && after == before,
            Ok(_) => {
                &&& r is Ok
                &&& after == repaired(before.update(5, token).update(17, 0), k)
                &&& r->Ok_0.1 == (GateShmProducer {
                    token,
                    owner_pid: pid,
                    max_slots: o.max_slots,
                    table_offset: o.table_offset,
                })
                &&& r->Ok_0.2 == floor_for(before, k)
                &&& resumed(
                    r->Ok_0.0,
                    gate_of(after, o.table_offset as int, o.max_slots as int),
                    o.capacity as int,
                )
            },
        },
    }
}

fn gate_attach_producer(
    region: &mut [u64],
    file_len: u64,
    k: GateKind,
    token: u64,
    force: bool,
    pid: u32,
) -> (r: Result<(GateProducer, GateShmProducer, u64), ShmError>)
    requires
        words_for(file_len as int) <= old(region)@.len(),
        k.inv(),
        token != 0,
    ensures
        gate_producer_attached(
            old(region)@,
            final(region)@,
            k,
            open_result(old(region)@, file_len, k),
            token,
            force,
            pid,
            r,
        ),
{
    let opened = match open_gate(region, file_len, k) {
        Err(e) => return Err(e),
        Ok(opened) => opened,
    };
    match attach_producer_anchor(region, opened, token, force, pid) {
        Err(e) => Err(e),
        Ok(side) => {
            let floor: u64 = repair(region, k);
            let core = GateProducer::from_shm(region, &side, opened.capacity);
            Ok((core, side, floor))
        },
    }
}

/// The outcome of attaching to a gating ring as a consumer.
pub open spec fn gate_consumer_attached(
    before: Seq<u64>,
    after: Seq<u64>,
    k: GateKind,
    opened: Result<GateOpened, ShmError>,
    token: u64,
    pid: u32,
    r: Result<(GateConsumer, GateShmConsumer), ShmError>,
) -> bool {
    match opened {
        Err(e) => r is Err && r->Err_0 == e && after == before,
        Ok(o) => match r {
            Ok((core, side)) => {
                &&& consumer_attached(before, after, o, token, pid, k.table_full(), Ok(side))
                &&& core == reading_from(side.claim, o.capacity, side.claim.joined)
            },
            Err(e) => consumer_attached(before, after, o, token, pid, k.table_full(), Err(e)),
        },
    }
}

fn gate_attach_consumer(
    region: &mut [u64],
    file_len: u64,
    k: GateKind,
    token: u64,
    pid: u32,
) -> (r: Result<(GateConsumer, GateShmConsumer), ShmError>)
    requires
        words_for(file_len as int) <= old(region)@.len(),
        k.inv(),
        token != 0,
    ensures
        gate_consumer_attached(
            old(region)@,
            final(region)@,
            k,
            open_result(old(region)@, file_len, k),
            token,
            pid,
            r,
        ),
{
    let opened = match open_gate(region, file_len, k) {
        Err(e) => return Err(e),
        Ok(opened) => opened,
    };
    let table_full: ShmError = if k.anchored {
        ShmError::AnchorTableFull
    } else {
        ShmError::ConsumerTableFull
    };
    match attach_consumer_anchor(region, opened, token, pid, table_full) {
        Err(e) => Err(e),
        Ok(side) => {
            let core = GateConsumer::from_shm(&side.claim, opened.capacity, side.claim.joined);
            Ok((core, side))
        },
    }
}

/// The outcome of retiring a slot of a gating ring.
pub open spec fn gate_detached(
    before: Seq<u64>,
    after: Seq<u64>,
    k: GateKind,
    opened: Result<GateOpened, ShmError>,
    slot: usize,
    epoch: u32,
    r: Result<(), ShmError>,
) -> bool {
    match opened {
        Err(e) => r is Err && r->Err_0 == e && after == before,
        Ok(o) => if slot >= o.max_slots {
            &&& after == before
            &&& r == Err::<(), ShmError>(
                if k.anchored {
                    ShmError::AnchorSlotOutOfRange
                } else {
                    ShmError::ConsumerSlotOutOfRange
                },
            )
        } else {
            &&& r == retired(before, o.table_offset as int, slot as int, epoch)
            &&& after == if r is Ok {
                before.update(
                    slot_word(o.table_offset as int, slot as int, SLOT_CONTROL as int),
                    control(epoch.wrapping_add(1), crate::region::STATE_RETIRED),
                )
            } else {
                before
            }
        },
    }
}

fn gate_force_detach(region: &mut [u64], file_len: u64, k: GateKind, slot: usize, epoch: u32) -> (r:
    Result<(), ShmError>)
    requires
        words_for(file_len as int) <= old(region)@.len(),
        k.inv(),
    ensures
        gate_detached(
            old(region)@,
            final(region)@,
            k,
            open_result(old(region)@, file_len, k),
            slot,
            epoch,
            r,
        ),
{
    let opened = match open_gate(region, file_len, k) {
        Err(e) => return Err(e),
        Ok(opened) => opened,
    };
    if slot >= opened.max_slots {
        return Err(
            if k.anchored {
                ShmError::AnchorSlotOutOfRange
            } else {
                ShmError::ConsumerSlotOutOfRange
            },
        );
    }
    force_detach_table_slot(region, opened.table_offset, opened.max_slots, slot, epoch)
}

/// The outcome of taking a gating ring over as a whole: the handles and the
/// floor of the producer's declarations.
pub open spec fn gate_recovered(
    before: Seq<u64>,
    after: Seq<u64>,
    k: GateKind,
    opened: Result<GateOpened, ShmError>,
    producer: u64,
    consumer: u64,
    pid: u32,
    r: Result<(GateHandles, u64), ShmError>,
) -> bool {
    match opened {
        Err(e) => r is Err && r->Err_0 == e && after == before,
        Ok(o) => {
            let taken = repaired(before.update(5, producer).update(17, 0), k);
            &&& r is Ok
            &&& r->Ok_0.1 == floor_for(before, k)
            &&& table_recovered(
                taken,
                after,
                o,
                consumer,
                r->Ok_0.0.consumer_side.claim,
                r->Ok_0.0.consumer.read_cursor,
            )
            &&& r->Ok_0.0.consumer == reading_from(
                r->Ok_0.0.consumer_side.claim,
                o.capacity,
                r->Ok_0.0.consumer.read_cursor,
            )
            &&& r->Ok_0.0.producer_side == (GateShmProducer {
                token: producer,
                owner_pid: pid,
                max_slots: o.max_slots,
                table_offset: o.table_offset,
            })
            &&& r->Ok_0.0.consumer_side.owner_pid == pid
            &&& r->Ok_0.0.consumer_side.max_slots == o.max_slots
            &&& r->Ok_0.0.consumer_side.table_offset == o.table_offset
            &&& resumed(
                r->Ok_0.0.producer,
                gate_of(after, o.table_offset as int, o.max_slots as int),
                o.capacity as int,
            )
        },
    }
}

fn gate_recover(
    region: &mut [u64],
    file_len: u64,
    k: GateKind,
    producer: u64,
    consumer: u64,
    pid: u32,
) -> (r: Result<(GateHandles, u64), ShmError>)
    requires
        words_for(file_len as int) <= old(region)@.len(),
        k.inv(),
        producer != 0,
        consumer != 0,
    ensures
        gate_recovered(
            old(region)@,
            final(region)@,
            k,
            open_result(old(region)@, file_len, k),
            producer,
            consumer,
            pid,
            r,
        ),
{
    let opened = match open_gate(region, file_len, k) {
        Err(e) => return Err(e),
        Ok(opened) => opened,
    };
    let producer_side = match attach_producer_anchor(region, opened, producer, true, pid) {
        Err(e) => return Err(e),
        Ok(side) => side,
    };
    let floor: u64 = repair(region, k);
    let (claim, resume): (SlotClaim, u64) = recover_table(region, opened, consumer);
    let consumer_side = GateShmConsumer::new(claim, pid, opened.max_slots, opened.table_offset);
    let producer_core = GateProducer::from_shm(region, &producer_side, opened.capacity);
    let consumer_core = GateConsumer::from_shm(&claim, opened.capacity, resume);
    Ok(
        (
            GateHandles {
                producer: producer_core,
                producer_side,
                consumer: consumer_core,
                consumer_side,
            },
            floor,
        ),
    )
}

/// What a wrong element type, or else the ring, comes to.
pub open spec fn checked(fault: Option<ShmError>, r: Result<GateOpened, ShmError>) -> Result<
    GateOpened,
    ShmError,
> {
    match fault {
        Some(e) => Err(e),
        None => r,
    }
}

/// A rounded capacity is a power of two.
proof fn lemma_rounded_power(min_capacity: int, floor: int)
    requires
        min_capacity > 0,
        floor == 2 || floor == 8 || floor == 16,
    ensures
        vstd::arithmetic::power2::is_pow2(rounded(min_capacity, floor)),
        rounded(min_capacity, floor) > 0,
{
    reveal_with_fuel(vstd::arithmetic::power2::is_pow2, 6);
    crate::arith::lemma_next_pow2(min_capacity);
}

/// The gating ring of elements.
pub open spec fn spmc_elems<T: ShmItem>() -> GateKind {
    GateKind {
        kind: KIND_SPMC_ELEMS,
        unit_size: elem_of::<T>().size,
        stride: elem_of::<T>().size,
        min_capacity: 2,
        align: 1,
        table_offset: SPMC_TABLE_OFFSET,
        anchored: false,
        bytes: false,
    }
}

fn spmc_elems_kind<T: ShmItem>() -> (r: GateKind)
    ensures
        r == spmc_elems::<T>(),
{
    let size: usize = elem_type::<T>().size;
    GateKind {
        kind: KIND_SPMC_ELEMS,
        unit_size: size,
        stride: size,
        min_capacity: 2,
        align: 1,
        table_offset: SPMC_TABLE_OFFSET,
        anchored: false,
        bytes: false,
    }
}

impl<T: ShmItem> crate::spmc::RingBuffer<T> {
    /// Make a ring with a table of `max_consumers` slots, and take the producer's role
    /// and one slot.
    pub fn create_shm(
        region: &mut [u64],
        min_capacity: usize,
        max_consumers: usize,
        producer: u64,
        consumer: u64,
        pid: u32,
    ) -> (r: Result<GateHandles, ShmError>)
        requires
            0 < min_capacity <= usize::MAX / 2 + 1,
            producer != 0,
            consumer != 0,
            elem_fault(elem_of::<T>()) is None ==> sized(
                old(region)@,
                rounded(min_capacity as int, 2),
                spmc_elems::<T>().stride as int,
                spmc_elems::<T>().table_offset as int,
                max_consumers as int,
            ),
        ensures
            match elem_fault(elem_of::<T>()) {
                Some(e) => r is Err && r->Err_0 == e && final(region)@ == old(region)@,
                None => gate_created(
                        old(region)@,
                        final(region)@,
                        spmc_elems::<T>(),
                        rounded(min_capacity as int, 2) as usize,
                        max_consumers,
                        0,
                        producer,
                        consumer,
                        pid,
                        r,
                    ),
            },
    {
        match check_elem_type(elem_type::<T>()) {
            Err(e) => return Err(e),
            Ok(()) => {},
        }
        let capacity: usize = round_capacity(min_capacity, 2);
        proof {
            lemma_rounded_power(min_capacity as int, 2);
        }
        gate_create(region, spmc_elems_kind::<T>(), capacity, max_consumers, 0, producer, consumer, pid)
    }

    /// Attach as the producer; refused while the role is held. A ring that was
    /// closed is open again.
    pub fn attach_shm_producer(region: &mut [u64], file_len: u64, token: u64, pid: u32) -> (r: Result<
        (GateProducer, GateShmProducer, u64),
        ShmError,
    >)
        requires
            words_for(file_len as int) <= old(region)@.len(),
            token != 0,
        ensures
            gate_producer_attached(
                old(region)@,
                final(region)@,
                spmc_elems::<T>(),
                checked(elem_fault(elem_of::<T>()), open_result(old(region)@, file_len, spmc_elems::<T>())),
                token,
                false,
                pid,
                r,
            ),
    {
        match check_elem_type(elem_type::<T>()) {
            Err(e) => return Err(e),
            Ok(()) => {},
        }
        gate_attach_producer(region, file_len, spmc_elems_kind::<T>(), token, false, pid)
    }

    /// Take the producer's role, whoever holds it. The caller knows that the
    /// holder is gone.
    pub fn force_attach_shm_producer(region: &mut [u64], file_len: u64, token: u64, pid: u32) -> (r: Result<
        (GateProducer, GateShmProducer, u64),
        ShmError,
    >)
        requires
            words_for(file_len as int) <= old(region)@.len(),
            token != 0,
        ensures
            gate_producer_attached(
                old(region)@,
                final(region)@,
                spmc_elems::<T>(),
                checked(elem_fault(elem_of::<T>()), open_result(old(region)@, file_len, spmc_elems::<T>())),
                token,
                true,
                pid,
                r,
            ),
    {
        match check_elem_type(elem_type::<T>()) {
            Err(e) => return Err(e),
            Ok(()) => {},
        }
        gate_attach_producer(region, file_len, spmc_elems_kind::<T>(), token, true, pid)
    }

    /// Claim a slot; refused where the ring is closed and where no slot is free.
    pub fn attach_shm_consumer(region: &mut [u64], file_len: u64, token: u64, pid: u32) -> (r: Result<
        (GateConsumer, GateShmConsumer),
        ShmError,
    >)
        requires
            words_for(file_len as int) <= old(region)@.len(),
            token != 0,
        ensures
            gate_consumer_attached(
                old(region)@,
                final(region)@,
                spmc_elems::<T>(),
                checked(elem_fault(elem_of::<T>()), open_result(old(region)@, file_len, spmc_elems::<T>())),
                token,
                pid,
                r,
            ),
    {
        match check_elem_type(elem_type::<T>()) {
            Err(e) => return Err(e),
            Ok(()) => {},
        }
        gate_attach_consumer(region, file_len, spmc_elems_kind::<T>(), token, pid)
    }

    /// Retire a slot whose holder died, if it is still held under `epoch`. It no
    /// longer holds the producer back, and is not given out again until the
    /// ring is taken over as a whole.
    pub fn force_detach_consumer(region: &mut [u64], file_len: u64, slot: usize, epoch: u32) -> (r: Result<
        (),
        ShmError,
    >)
        requires
            words_for(file_len as int) <= old(region)@.len(),
        ensures
            gate_detached(
                old(region)@,
                final(region)@,
                spmc_elems::<T>(),
                checked(elem_fault(elem_of::<T>()), open_result(old(region)@, file_len, spmc_elems::<T>())),
                slot,
                epoch,
                r,
            ),
    {
        match check_elem_type(elem_type::<T>()) {
            Err(e) => return Err(e),
            Ok(()) => {},
        }
        gate_force_detach(region, file_len, spmc_elems_kind::<T>(), slot, epoch)
    }

    /// Take everything over: the producer's role by force, and a table that is
    /// freed as a whole. The new consumer resumes where the slowest one stood.
    pub fn recover_shm(region: &mut [u64], file_len: u64, producer: u64, consumer: u64, pid: u32) -> (r:
        Result<(GateHandles, u64), ShmError>)
        requires
            words_for(file_len as int) <= old(region)@.len(),
            producer != 0,
            consumer != 0,
        ensures
            gate_recovered(
                old(region)@,
                final(region)@,
                spmc_elems::<T>(),
                checked(elem_fault(elem_of::<T>()), open_result(old(region)@, file_len, spmc_elems::<T>())),
                producer,
                consumer,
                pid,
                r,
            ),
    {
        match check_elem_type(elem_type::<T>()) {
            Err(e) => return Err(e),
            Ok(()) => {},
        }
        gate_recover(region, file_len, spmc_elems_kind::<T>(), producer, consumer, pid)
    }
}

/// The gating ring of byte messages.
pub open spec fn spmc_bytes() -> GateKind {
    GateKind {
        kind: KIND_SPMC_BYTES,
        unit_size: 1,
        stride: 1,
        min_capacity: 8,
        align: 8,
        table_offset: SPMC_TABLE_OFFSET,
        anchored: false,
        bytes: true,
    }
}

fn spmc_bytes_kind() -> (r: GateKind)
    ensures
        r == spmc_bytes(),
{
    GateKind {
        kind: KIND_SPMC_BYTES,
        unit_size: 1,
        stride: 1,
        min_capacity: 8,
        align: 8,
        table_offset: SPMC_TABLE_OFFSET,
        anchored: false,
        bytes: true,
    }
}

impl crate::spmc_bytes::BytesRingBuffer {
    /// Make a ring with a table of `max_consumers` slots, and take the producer's role
    /// and one slot.
    pub fn create_shm(
        region: &mut [u64],
        min_capacity: usize,
        max_consumers: usize,
        producer: u64,
        consumer: u64,
        pid: u32,
    ) -> (r: Result<GateHandles, ShmError>)
        requires
            0 < min_capacity <= usize::MAX / 2 + 1,
            producer != 0,
            consumer != 0,
            sized(
                old(region)@,
                rounded(min_capacity as int, 8),
                spmc_bytes().stride as int,
                spmc_bytes().table_offset as int,
                max_consumers as int,
            ),
        ensures
            gate_created(
                        old(region)@,
                        final(region)@,
                        spmc_bytes(),
                        rounded(min_capacity as int, 8) as usize,
                        max_consumers,
                        0,
                        producer,
                        consumer,
                        pid,
                        r,
                    ),
    {
        let capacity: usize = round_capacity(min_capacity, 8);
        proof {
            lemma_rounded_power(min_capacity as int, 8);
        }
        gate_create(region, spmc_bytes_kind(), capacity, max_consumers, 0, producer, consumer, pid)
    }

    /// Attach as the producer; refused while the role is held. A ring that was
    /// closed is open again.
    pub fn attach_shm_producer(region: &mut [u64], file_len: u64, token: u64, pid: u32) -> (r: Result<
        (GateProducer, GateShmProducer, u64),
        ShmError,
    >)
        requires
            words_for(file_len as int) <= old(region)@.len(),
            token != 0,
        ensures
            gate_producer_attached(
                old(region)@,
                final(region)@,
                spmc_bytes(),
                open_result(old(region)@, file_len, spmc_bytes()),
                token,
                false,
                pid,
                r,
            ),
    {
        gate_attach_producer(region, file_len, spmc_bytes_kind(), token, false, pid)
    }

    /// Take the producer's role, whoever holds it. The caller knows that the
    /// holder is gone.
    pub fn force_attach_shm_producer(region: &mut [u64], file_len: u64, token: u64, pid: u32) -> (r: Result<
        (GateProducer, GateShmProducer, u64),
        ShmError,
    >)
        requires
            words_for(file_len as int) <= old(region)@.len(),
            token != 0,
        ensures
            gate_producer_attached(
                old(region)@,
                final(region)@,
                spmc_bytes(),
                open_result(old(region)@, file_len, spmc_bytes()),
                token,
                true,
                pid,
                r,
            ),
    {
        gate_attach_producer(region, file_len, spmc_bytes_kind(), token, true, pid)
    }

    /// Claim a slot; refused where the ring is closed and where no slot is free.
    pub fn attach_shm_consumer(region: &mut [u64], file_len: u64, token: u64, pid: u32) -> (r: Result<
        (GateConsumer, GateShmConsumer),
        ShmError,
    >)
        requires
            words_for(file_len as int) <= old(region)@.len(),
            token != 0,
        ensures
            gate_consumer_attached(
                old(region)@,
                final(region)@,
                spmc_bytes(),
                open_result(old(region)@, file_len, spmc_bytes()),
                token,
                pid,
                r,
            ),
    {
        gate_attach_consumer(region, file_len, spmc_bytes_kind(), token, pid)
    }

    /// Retire a slot whose holder died, if it is still held under `epoch`. It no
    /// longer holds the producer back, and is not given out again until the
    /// ring is taken over as a whole.
    pub fn force_detach_consumer(region: &mut [u64], file_len: u64, slot: usize, epoch: u32) -> (r: Result<
        (),
        ShmError,
    >)
        requires
            words_for(file_len as int) <= old(region)@.len(),
        ensures
            gate_detached(
                old(region)@,
                final(region)@,
                spmc_bytes(),
                open_result(old(region)@, file_len, spmc_bytes()),
                slot,
                epoch,
                r,
            ),
    {
        gate_force_detach(region, file_len, spmc_bytes_kind(), slot, epoch)
    }

    /// Take everything over: the producer's role by force, and a table that is
    /// freed as a whole. The new consumer resumes where the slowest one stood.
    pub fn recover_shm(region: &mut [u64], file_len: u64, producer: u64, consumer: u64, pid: u32) -> (r:
        Result<(GateHandles, u64), ShmError>)
        requires
            words_for(file_len as int) <= old(region)@.len(),
            producer != 0,
            consumer != 0,
        ensures
            gate_recovered(
                old(region)@,
                final(region)@,
                spmc_bytes(),
                open_result(old(region)@, file_len, spmc_bytes()),
                producer,
                consumer,
                pid,
                r,
            ),
    {
        gate_recover(region, file_len, spmc_bytes_kind(), producer, consumer, pid)
    }
}

/// The ring of elements with anchors and observers.
pub open spec fn anch_elems<T: ShmItem>() -> GateKind {
    GateKind {
        kind: KIND_ANCH_ELEMS,
        unit_size: elem_of::<T>().size,
        stride: stride_of(elem_of::<T>()) as usize,
        min_capacity: 2,
        align: 1,
        table_offset: ANCH_ELEMS_TABLE_OFFSET,
        anchored: true,
        bytes: false,
    }
}

fn anch_elems_kind<T: ShmItem>(stride: usize) -> (r: GateKind)
    requires
        stride == stride_of(elem_of::<T>()),
    ensures
        r == anch_elems::<T>(),
{
    GateKind {
        kind: KIND_ANCH_ELEMS,
        unit_size: elem_type::<T>().size,
        stride,
        min_capacity: 2,
        align: 1,
        table_offset: ANCH_ELEMS_TABLE_OFFSET,
        anchored: true,
        bytes: false,
    }
}

impl<T: ShmItem> crate::anchored::RingBuffer<T> {
    /// Make a ring with a table of `max_anchors` slots and the default slack, and take the
    /// producer's role and one slot.
    pub fn create_shm(
        region: &mut [u64],
        min_capacity: usize,
        max_anchors: usize,
        producer: u64,
        consumer: u64,
        pid: u32,
    ) -> (r: Result<GateHandles, ShmError>)
        requires
            0 < min_capacity <= usize::MAX / 2 + 1,
            producer != 0,
            consumer != 0,
            slot_fault(elem_of::<T>()) is None ==> sized(
                old(region)@,
                rounded(min_capacity as int, 2),
                anch_elems::<T>().stride as int,
                anch_elems::<T>().table_offset as int,
                max_anchors as int,
            ),
        ensures
            match slot_fault(elem_of::<T>()) {
                Some(e) => r is Err && r->Err_0 == e && final(region)@ == old(region)@,
                None => gate_created(
                        old(region)@,
                        final(region)@,
                        anch_elems::<T>(),
                        rounded(min_capacity as int, 2) as usize,
                        max_anchors,
                        crate::anchored::slack_of(rounded(min_capacity as int, 2)) as u64,
                        producer,
                        consumer,
                        pid,
                        r,
                    ),
            },
    {
        let stride: usize = match check_slot_type(elem_type::<T>()) {
            Err(e) => return Err(e),
            Ok(stride) => stride,
        };
        let capacity: usize = round_capacity(min_capacity, 2);
        proof {
            lemma_rounded_power(min_capacity as int, 2);
        }
        gate_create(region, anch_elems_kind::<T>(stride), capacity, max_anchors, crate::anchored::default_slack(capacity as u64), producer, consumer, pid)
    }

    /// Make a ring with an explicit slack for its observers; an error where it is
    /// not below the capacity.
    pub fn create_shm_with_slack(
        region: &mut [u64],
        min_capacity: usize,
        max_anchors: usize,
        slack: usize,
        producer: u64,
        consumer: u64,
        pid: u32,
    ) -> (r: Result<GateHandles, ShmError>)
        requires
            0 < min_capacity <= usize::MAX / 2 + 1,
            producer != 0,
            consumer != 0,
            slot_fault(elem_of::<T>()) is None ==> sized(
                old(region)@,
                rounded(min_capacity as int, 2),
                anch_elems::<T>().stride as int,
                anch_elems::<T>().table_offset as int,
                max_anchors as int,
            ),
        ensures
            match slot_fault(elem_of::<T>()) {
                Some(e) => r is Err && r->Err_0 == e && final(region)@ == old(region)@,
                None => (if slack >= rounded(min_capacity as int, 2) {
                        r is Err && r->Err_0 == ShmError::SlackTooLarge && final(region)@ == old(
                            region,
                        )@
                    } else {
                        gate_created(
                        old(region)@,
                        final(region)@,
                        anch_elems::<T>(),
                        rounded(min_capacity as int, 2) as usize,
                        max_anchors,
                        slack as u64,
                        producer,
                        consumer,
                        pid,
                        r,
                    )
                    }),
            },
    {
        let stride: usize = match check_slot_type(elem_type::<T>()) {
            Err(e) => return Err(e),
            Ok(stride) => stride,
        };
        let capacity: usize = round_capacity(min_capacity, 2);
        proof {
            lemma_rounded_power(min_capacity as int, 2);
        }
        if slack >= capacity {
            return Err(ShmError::SlackTooLarge);
        }
        gate_create(region, anch_elems_kind::<T>(stride), capacity, max_anchors, slack as u64, producer, consumer, pid)
    }

    /// Attach as the producer; refused while the role is held. A ring that was
    /// closed is open again.
    pub fn attach_shm_producer(region: &mut [u64], file_len: u64, token: u64, pid: u32) -> (r: Result<
        (GateProducer, GateShmProducer, u64),
        ShmError,
    >)
        requires
            words_for(file_len as int) <= old(region)@.len(),
            token != 0,
        ensures
            gate_producer_attached(
                old(region)@,
                final(region)@,
                anch_elems::<T>(),
                checked(slot_fault(elem_of::<T>()), open_result(old(region)@, file_len, anch_elems::<T>())),
                token,
                false,
                pid,
                r,
            ),
    {
        let stride: usize = match check_slot_type(elem_type::<T>()) {
            Err(e) => return Err(e),
            Ok(stride) => stride,
        };
        gate_attach_producer(region, file_len, anch_elems_kind::<T>(stride), token, false, pid)
    }

    /// Take the producer's role, whoever holds it. The caller knows that the
    /// holder is gone.
    pub fn force_attach_shm_producer(region: &mut [u64], file_len: u64, token: u64, pid: u32) -> (r: Result<
        (GateProducer, GateShmProducer, u64),
        ShmError,
    >)
        requires
            words_for(file_len as int) <= old(region)@.len(),
            token != 0,
        ensures
            gate_producer_attached(
                old(region)@,
                final(region)@,
                anch_elems::<T>(),
                checked(slot_fault(elem_of::<T>()), open_result(old(region)@, file_len, anch_elems::<T>())),
                token,
                true,
                pid,
                r,
            ),
    {
        let stride: usize = match check_slot_type(elem_type::<T>()) {
            Err(e) => return Err(e),
            Ok(stride) => stride,
        };
        gate_attach_producer(region, file_len, anch_elems_kind::<T>(stride), token, true, pid)
    }

    /// Claim a slot; refused where the ring is closed and where no slot is free.
    pub fn attach_shm_anchor(region: &mut [u64], file_len: u64, token: u64, pid: u32) -> (r: Result<
        (GateConsumer, GateShmConsumer),
        ShmError,
    >)
        requires
            words_for(file_len as int) <= old(region)@.len(),
            token != 0,
        ensures
            gate_consumer_attached(
                old(region)@,
                final(region)@,
                anch_elems::<T>(),
                checked(slot_fault(elem_of::<T>()), open_result(old(region)@, file_len, anch_elems::<T>())),
                token,
                pid,
                r,
            ),
    {
        let stride: usize = match check_slot_type(elem_type::<T>()) {
            Err(e) => return Err(e),
            Ok(stride) => stride,
        };
        gate_attach_consumer(region, file_len, anch_elems_kind::<T>(stride), token, pid)
    }

    /// Retire a slot whose holder died, if it is still held under `epoch`. It no
    /// longer holds the producer back, and is not given out again until the
    /// ring is taken over as a whole.
    pub fn force_detach_anchor(region: &mut [u64], file_len: u64, slot: usize, epoch: u32) -> (r: Result<
        (),
        ShmError,
    >)
        requires
            words_for(file_len as int) <= old(region)@.len(),
        ensures
            gate_detached(
                old(region)@,
                final(region)@,
                anch_elems::<T>(),
                checked(slot_fault(elem_of::<T>()), open_result(old(region)@, file_len, anch_elems::<T>())),
                slot,
                epoch,
                r,
            ),
    {
        let stride: usize = match check_slot_type(elem_type::<T>()) {
            Err(e) => return Err(e),
            Ok(stride) => stride,
        };
        gate_force_detach(region, file_len, anch_elems_kind::<T>(stride), slot, epoch)
    }

    /// Take everything over: the producer's role by force, and a table that is
    /// freed as a whole. The new consumer resumes where the slowest one stood.
    pub fn recover_shm(region: &mut [u64], file_len: u64, producer: u64, consumer: u64, pid: u32) -> (r:
        Result<(GateHandles, u64), ShmError>)
        requires
            words_for(file_len as int) <= old(region)@.len(),
            producer != 0,
            consumer != 0,
        ensures
            gate_recovered(
                old(region)@,
                final(region)@,
                anch_elems::<T>(),
                checked(slot_fault(elem_of::<T>()), open_result(old(region)@, file_len, anch_elems::<T>())),
                producer,
                consumer,
                pid,
                r,
            ),
    {
        let stride: usize = match check_slot_type(elem_type::<T>()) {
            Err(e) => return Err(e),
            Ok(stride) => stride,
        };
        gate_recover(region, file_len, anch_elems_kind::<T>(stride), producer, consumer, pid)
    }
}

/// The ring of byte messages with anchors and observers.
pub open spec fn anch_bytes() -> GateKind {
    GateKind {
        kind: KIND_ANCH_BYTES,
        unit_size: 1,
        stride: 1,
        min_capacity: 16,
        align: 8,
        table_offset: ANCH_BYTES_TABLE_OFFSET,
        anchored: true,
        bytes: true,
    }
}

fn anch_bytes_kind() -> (r: GateKind)
    ensures
        r == anch_bytes(),
{
    GateKind {
        kind: KIND_ANCH_BYTES,
        unit_size: 1,
        stride: 1,
        min_capacity: 16,
        align: 8,
        table_offset: ANCH_BYTES_TABLE_OFFSET,
        anchored: true,
        bytes: true,
    }
}

impl crate::anchored_bytes::BytesRingBuffer {
    /// Make a ring with a table of `max_anchors` slots, and take the producer's role
    /// and one slot.
    pub fn create_shm(
        region: &mut [u64],
        min_capacity: usize,
        max_anchors: usize,
        producer: u64,
        consumer: u64,
        pid: u32,
    ) -> (r: Result<GateHandles, ShmError>)
        requires
            0 < min_capacity <= usize::MAX / 2 + 1,
            producer != 0,
            consumer != 0,
            sized(
                old(region)@,
                rounded(min_capacity as int, 16),
                anch_bytes().stride as int,
                anch_bytes().table_offset as int,
                max_anchors as int,
            ),
        ensures
            gate_created(
                        old(region)@,
                        final(region)@,
                        anch_bytes(),
                        rounded(min_capacity as int, 16) as usize,
                        max_anchors,
                        0,
                        producer,
                        consumer,
                        pid,
                        r,
                    ),
    {
        let capacity: usize = round_capacity(min_capacity, 16);
        proof {
            lemma_rounded_power(min_capacity as int, 16);
        }
        gate_create(region, anch_bytes_kind(), capacity, max_anchors, 0, producer, consumer, pid)
    }

    /// Attach as the producer; refused while the role is held. A ring that was
    /// closed is open again.
    pub fn attach_shm_producer(region: &mut [u64], file_len: u64, token: u64, pid: u32) -> (r: Result<
        (GateProducer, GateShmProducer, u64),
        ShmError,
    >)
        requires
            words_for(file_len as int) <= old(region)@.len(),
            token != 0,
        ensures
            gate_producer_attached(
                old(region)@,
                final(region)@,
                anch_bytes(),
                open_result(old(region)@, file_len, anch_bytes()),
                token,
                false,
                pid,
                r,
            ),
    {
        gate_attach_producer(region, file_len, anch_bytes_kind(), token, false, pid)
    }

    /// Take the producer's role, whoever holds it. The caller knows that the
    /// holder is gone.
    pub fn force_attach_shm_producer(region: &mut [u64], file_len: u64, token: u64, pid: u32) -> (r: Result<
        (GateProducer, GateShmProducer, u64),
        ShmError,
    >)
        requires
            words_for(file_len as int) <= old(region)@.len(),
            token != 0,
        ensures
            gate_producer_attached(
                old(region)@,
                final(region)@,
                anch_bytes(),
                open_result(old(region)@, file_len, anch_bytes()),
                token,
                true,
                pid,
                r,
            ),
    {
        gate_attach_producer(region, file_len, anch_bytes_kind(), token, true, pid)
    }

    /// Claim a slot; refused where the ring is closed and where no slot is free.
    pub fn attach_shm_anchor(region: &mut [u64], file_len: u64, token: u64, pid: u32) -> (r: Result<
        (GateConsumer, GateShmConsumer),
        ShmError,
    >)
        requires
            words_for(file_len as int) <= old(region)@.len(),
            token != 0,
        ensures
            gate_consumer_attached(
                old(region)@,
                final(region)@,
                anch_bytes(),
                open_result(old(region)@, file_len, anch_bytes()),
                token,
                pid,
                r,
            ),
    {
        gate_attach_consumer(region, file_len, anch_bytes_kind(), token, pid)
    }

    /// Retire a slot whose holder died, if it is still held under `epoch`. It no
    /// longer holds the producer back, and is not given out again until the
    /// ring is taken over as a whole.
    pub fn force_detach_anchor(region: &mut [u64], file_len: u64, slot: usize, epoch: u32) -> (r: Result<
        (),
        ShmError,
    >)
        requires
            words_for(file_len as int) <= old(region)@.len(),
        ensures
            gate_detached(
                old(region)@,
                final(region)@,
                anch_bytes(),
                open_result(old(region)@, file_len, anch_bytes()),
                slot,
                epoch,
                r,
            ),
    {
        gate_force_detach(region, file_len, anch_bytes_kind(), slot, epoch)
    }

    /// Take everything over: the producer's role by force, and a table that is
    /// freed as a whole. The new consumer resumes where the slowest one stood.
    pub fn recover_shm(region: &mut [u64], file_len: u64, producer: u64, consumer: u64, pid: u32) -> (r:
        Result<(GateHandles, u64), ShmError>)
        requires
            words_for(file_len as int) <= old(region)@.len(),
            producer != 0,
            consumer != 0,
        ensures
            gate_recovered(
                old(region)@,
                final(region)@,
                anch_bytes(),
                open_result(old(region)@, file_len, anch_bytes()),
                producer,
                consumer,
                pid,
                r,
            ),
    {
        gate_recover(region, file_len, anch_bytes_kind(), producer, consumer, pid)
    }
}

impl<T: ShmItem> crate::anchored::RingBuffer<T> {
    /// Attach as an observer, which takes no lease and no slot and writes
    /// nothing. It sees what is published from now on.
    pub fn attach_shm_observer(region: &[u64], file_len: u64) -> (r: Result<SlotReader, ShmError>)
        requires
            words_for(file_len as int) <= region@.len(),
        ensures
            match checked_anchored(
                slot_fault(elem_of::<T>()),
                anchored_open(
                    region@,
                    file_len,
                    KIND_ANCH_ELEMS,
                    elem_of::<T>().size,
                    stride_of(elem_of::<T>()) as usize,
                    ANCH_ELEMS_TABLE_OFFSET,
                    2,
                    1,
                ),
            ) {
                Err(e) => r == Err::<SlotReader, ShmError>(e),
                Ok(o) => r == Ok::<SlotReader, ShmError>(
                    SlotReader {
                        mask: (o.capacity - 1) as u64,
                        slack: o.slack,
                        pos: word(region@, OFF_WRITE_CURSOR as int),
                        tail_cache: word(region@, OFF_WRITE_CURSOR as int),
                    },
                ),
            },
    {
        let stride: usize = match check_slot_type(elem_type::<T>()) {
            Err(e) => return Err(e),
            Ok(stride) => stride,
        };
        match open_anch_region(
            region,
            file_len,
            KIND_ANCH_ELEMS,
            elem_type::<T>().size,
            stride,
            ANCH_ELEMS_TABLE_OFFSET,
            2,
            1,
        ) {
            Err(e) => Err(e),
            Ok(o) => {
                let tail: u64 = read_u64(region, OFF_WRITE_CURSOR);
                Ok(SlotReader::join((o.capacity - 1) as u64, o.slack, tail))
            },
        }
    }
}

/// What a wrong element type, or else the ring, comes to.
pub open spec fn checked_anchored(fault: Option<ShmError>, r: Result<AnchOpened, ShmError>) -> Result<
    AnchOpened,
    ShmError,
> {
    match fault {
        Some(e) => Err(e),
        None => r,
    }
}

impl crate::anchored_bytes::BytesRingBuffer {
    /// Attach as an observer, which takes no lease and no slot and writes
    /// nothing. It sees what is committed from now on.
    pub fn attach_shm_observer(region: &[u64], file_len: u64) -> (r: Result<ByteReader, ShmError>)
        requires
            words_for(file_len as int) <= region@.len(),
        ensures
            match anchored_open(
                region@,
                file_len,
                KIND_ANCH_BYTES,
                1,
                1,
                ANCH_BYTES_TABLE_OFFSET,
                16,
                8,
            ) {
                Err(e) => r == Err::<ByteReader, ShmError>(e),
                Ok(o) => r == Ok::<ByteReader, ShmError>(
                    ByteReader {
                        mask: (o.capacity - 1) as u64,
                        pos: word(region@, OFF_WRITE_CURSOR as int),
                        tail_cache: word(region@, OFF_WRITE_CURSOR as int),
                    },
                ),
            },
    {
        match open_anch_region(
            region,
            file_len,
            KIND_ANCH_BYTES,
            1,
            1,
            ANCH_BYTES_TABLE_OFFSET,
            16,
            8,
        ) {
            Err(e) => Err(e),
            Ok(o) => {
                let tail: u64 = read_u64(region, OFF_WRITE_CURSOR);
                Ok(ByteReader::join((o.capacity - 1) as u64, tail))
            },
        }
    }
}

/// The outcome of a subscription over a region that is attached already: a
/// region that is being initialised, or was since, counts as closed.
pub open spec fn shm_subscribed(
    before: Seq<u64>,
    after: Seq<u64>,
    opened: GateOpened,
    token: u64,
    pid: u32,
    r: Result<(GateConsumer, GateShmConsumer), SubscribeError>,
) -> bool {
    let table = opened.table_offset as int;
    let n = opened.max_slots as int;
    if word(before, OFF_GENERATION as int) % 2 == 1 || word(before, OFF_CLOSED as int) != 0 {
        r is Err && r->Err_0 == SubscribeError::Closed && after == before
    } else if first_free(before, table, n, n) {
        r is Err && r->Err_0 == SubscribeError::Full && after == before
    } else {
        &&& r is Ok
        &&& claims(before, opened, token, r->Ok_0.1.claim)
        &&& after == with_claim(before, table, r->Ok_0.1.claim)
        &&& r->Ok_0.1.owner_pid == pid
        &&& r->Ok_0.1.max_slots == opened.max_slots
        &&& r->Ok_0.1.table_offset == opened.table_offset
        &&& r->Ok_0.0 == reading_from(
            r->Ok_0.1.claim,
            opened.capacity,
            r->Ok_0.1.claim.joined,
        )
    }
}

/// Claim another slot of a ring that is attached already.
pub fn shm_subscribe_anchor(region: &mut [u64], opened: GateOpened, token: u64, pid: u32) -> (r:
    Result<(GateConsumer, GateShmConsumer), SubscribeError>)
    requires
        fits(opened, old(region)@),
        token != 0,
    ensures
        shm_subscribed(old(region)@, final(region)@, opened, token, pid, r),
{
    let generation: u64 = read_u64(region, OFF_GENERATION);
    if generation % 2 == 1 {
        return Err(SubscribeError::Closed);
    }
    if read_u64(region, OFF_CLOSED) != 0 {
        return Err(SubscribeError::Closed);
    }
    match claim_table_slot(region, opened.table_offset, opened.max_slots, token) {
        None => Err(SubscribeError::Full),
        Some(claim) => {
            if read_u64(region, OFF_GENERATION) != generation {
                release_table_claim(
                    region,
                    opened.table_offset,
                    opened.max_slots,
                    &claim,
                    generation,
                );
                return Err(SubscribeError::Closed);
            }
            let side = GateShmConsumer::new(claim, pid, opened.max_slots, opened.table_offset);
            let core = GateConsumer::from_shm(&claim, opened.capacity, claim.joined);
            Ok((core, side))
        },
    }
}

/// A retired slot is not given out again: as long as nobody resets the table,
/// a claim never takes it.
pub proof fn a_retired_slot_is_not_given_out(
    region: Seq<u64>,
    opened: GateOpened,
    slot: usize,
    epoch: u32,
    token: u64,
    claim: SlotClaim,
)
    requires
        fits(opened, region),
        slot < opened.max_slots,
        retired(region, opened.table_offset as int, slot as int, epoch) is Ok,
        claims(
            region.update(
                slot_word(opened.table_offset as int, slot as int, SLOT_CONTROL as int),
                control(epoch.wrapping_add(1), crate::region::STATE_RETIRED),
            ),
            opened,
            token,
            claim,
        ),
    ensures
        claim.slot != slot,
{
    crate::region::a_control_word_is_its_halves(
        control(epoch.wrapping_add(1), crate::region::STATE_RETIRED),
    );
}

/// A holder cannot be retired on account of its predecessor: a slot that was
/// let go and claimed again has another epoch.
pub proof fn a_new_occupancy_cannot_be_mistaken(
    region: Seq<u64>,
    opened: GateOpened,
    token: u64,
    claim: SlotClaim,
    earlier: u32,
)
    requires
        fits(opened, region),
        claims(region, opened, token, claim),
        earlier == epoch_of(control_at(region, opened.table_offset as int, claim.slot as int)),
    ensures
        retired(
            with_claim(region, opened.table_offset as int, claim),
            opened.table_offset as int,
            claim.slot as int,
            earlier,
        ) == Err::<(), ShmError>(ShmError::EpochMismatch),
        retired(
            with_claim(region, opened.table_offset as int, claim),
            opened.table_offset as int,
            claim.slot as int,
            claim.epoch,
        ) is Ok,
{
}

/// A slot that is given back is free again, under the epoch of its last
/// holder.
pub proof fn a_slot_given_back_is_free(
    region: Seq<u64>,
    opened: GateOpened,
    token: u64,
    claim: SlotClaim,
)
    requires
        fits(opened, region),
        claims(region, opened, token, claim),
    ensures
        ({
            let table = opened.table_offset as int;
            let after = without_claim(with_claim(region, table, claim), table, claim);
            &&& control_at(after, table, claim.slot as int) == control(claim.epoch, STATE_FREE)
            &&& cursor_at(after, table, claim.slot as int) == DETACHED
            &&& crate::region::lease_at(after, table, claim.slot as int) == 0
        }),
{
}

/// Taking a ring over never makes a new producer declare less than was
/// declared before, and leaves the jump target at a committed position.
pub proof fn healing_keeps_the_frontier(region: Seq<u64>)
    requires
        region.len() >= 49,
    ensures
        floor_of(region) >= word(region, OFF_INTENT as int),
        floor_of(region) >= word(region, OFF_WRITE_CURSOR as int),
        word(region, OFF_INTENT as int) != word(region, OFF_WRITE_CURSOR as int) ==> word(
            healed(region),
            OFF_LATEST as int,
        ) == word(region, OFF_WRITE_CURSOR as int),
        word(region, OFF_INTENT as int) == word(region, OFF_WRITE_CURSOR as int) ==> healed(region)
            == region,
{
}

/// The halves of a fresh gating ring belong to it: nothing is pending, and the
/// producer knows of its one consumer.
pub proof fn a_fresh_ring_is_in_order(
    before: Seq<u64>,
    after: Seq<u64>,
    k: GateKind,
    capacity: usize,
    max_slots: usize,
    slack: u64,
    producer: u64,
    consumer: u64,
    pid: u32,
    handles: GateHandles,
)
    requires
        k.inv(),
        ring_capacity(capacity as int),
        capacity >= 2,
        sized(before, capacity as int, k.stride as int, k.table_offset as int, max_slots as int),
        gate_created(
            before,
            after,
            k,
            capacity,
            max_slots,
            slack,
            producer,
            consumer,
            pid,
            Ok(handles),
        ),
    ensures
        handles.producer_side.fits(after),
        handles.producer.inv(handles.producer_side.gate(after)),
        handles.producer.cap() == capacity,
        handles.consumer_side.fits(after),
        handles.consumer_side.holds_lease(after),
        handles.consumer.slot.at() == handles.consumer_side.claim.slot,
        handles.consumer.inv(handles.consumer_side.gate(after)),
        handles.consumer.unread(handles.consumer_side.gate(after)) == 0,
        handles.consumer.cap() == capacity,
{
    let table = k.table_offset as int;
    let slots = max_slots as int;
    let made = create_result(before, k, capacity, max_slots, slack, producer)->Ok_0;
    let claim = handles.consumer_side.claim;
    let gate = gate_of(after, table, slots);
    assert(capacity * k.stride >= 0) by (nonlinear_arith)
        requires
            capacity >= 0,
            k.stride >= 0,
    ;
    assert forall|j: int| 0 <= j < slots implies !(#[trigger] gate_of(
        made,
        table,
        slots,
    ).slots[j]).active by {
        let w = slot_word(table, j, SLOT_CONTROL as int);
        assert(!detached_table(w, table, slots));
        assert(made[w] == 0);
    }
    assert(gate_of(made, table, slots).tail == 0);
    crate::gate_shm::a_claim_keeps_everyone(
        handles.producer,
        handles.consumer,
        made,
        table,
        slots,
        claim,
        capacity,
    );
    assert forall|j: int| 0 <= j < gate.slots.len() && crate::gate::holds_back(
        #[trigger] gate.slots[j],
    ) implies gate.tail - gate.slots[j].cursor <= capacity by {
        if j != claim.slot {
            assert(!gate_of(made, table, slots).slots[j].active);
        }
    }
}

/// What a table that was taken over holds.
proof fn lemma_recovered_table(
    before: Seq<u64>,
    after: Seq<u64>,
    opened: GateOpened,
    consumer: u64,
    claim: SlotClaim,
    resume: u64,
)
    requires
        fits(opened, before),
        table_recovered(before, after, opened, consumer, claim, resume),
        forall|j: int|
            0 <= j < opened.max_slots ==> {
                let cursor = #[trigger] cursor_at(before, opened.table_offset as int, j);
                cursor == DETACHED || cursor <= word(before, OFF_WRITE_CURSOR as int)
            },
        word(before, OFF_WRITE_CURSOR as int) <= MAX_CURSOR,
    ensures
        resume <= word(before, OFF_WRITE_CURSOR as int),
        word(before, OFF_WRITE_CURSOR as int) - resume <= opened.capacity,
        forall|j: int|
            0 <= j < opened.max_slots ==> {
                let cursor = #[trigger] cursor_at(before, opened.table_offset as int, j);
                state_of(control_at(before, opened.table_offset as int, j)) != STATE_FREE && cursor
                    != DETACHED && word(before, OFF_WRITE_CURSOR as int) - cursor
                    <= opened.capacity ==> resume <= cursor
            },
{
    let table = opened.table_offset as int;
    let tail = word(before, OFF_WRITE_CURSOR as int);
    let capacity = opened.capacity as u64;
    let furthest = choose|furthest: u64| #[trigger]
        largest_lag(before, table, opened.max_slots as int, tail, capacity, furthest as nat)
            && resume == tail.wrapping_sub(furthest);
    if furthest > 0 {
        let j = choose|j: int|
            0 <= j < opened.max_slots && #[trigger] resume_lag(before, table, j, tail, capacity)
                == furthest;
        assert(resume_lag(before, table, j, tail, capacity) == furthest);
        let slowest = cursor_at(before, table, j);
    }
    assert forall|j: int|
        0 <= j < opened.max_slots && state_of(control_at(before, table, j)) != STATE_FREE
            && #[trigger] cursor_at(before, table, j) != DETACHED && tail - cursor_at(
            before,
            table,
            j,
        ) <= capacity implies resume <= cursor_at(before, table, j) by {
        assert(resume_lag(before, table, j, tail, capacity) <= furthest);
    }
}

/// What the producer of a region sees of a table that was taken over.
proof fn lemma_recovered_gate(
    before: Seq<u64>,
    after: Seq<u64>,
    opened: GateOpened,
    consumer: u64,
    claim: SlotClaim,
    resume: u64,
)
    requires
        fits(opened, before),
        table_recovered(before, after, opened, consumer, claim, resume),
        resume <= MAX_CURSOR,
    ensures
        ({
            let table = opened.table_offset as int;
            let n = opened.max_slots as int;
            let gate = gate_of(after, table, n);
            &&& after.len() == before.len()
            &&& gate.tail == word(before, OFF_WRITE_CURSOR as int)
            &&& gate.slots.len() == n
            &&& gate.slots[0] == (GateSlot { active: true, cursor: resume })
            &&& forall|j: int| 0 < j < n ==> !(#[trigger] gate.slots[j]).active
            &&& crate::region::lease_at(after, table, 0) == consumer
            &&& forall|i: int|
                table / 8 + 16 * n <= i < before.len() ==> #[trigger] after[i] == before[i]
        }),
{
    let table = opened.table_offset as int;
    let n = opened.max_slots as int;
    let gate = gate_of(after, table, n);
    assert forall|j: int| 0 < j < n implies !(#[trigger] gate.slots[j]).active by {
        let w = slot_word(table, j, SLOT_CONTROL as int);
        assert((w - table / 8) % 16 == 1);
        assert(state_of(control_at(after, table, j)) == STATE_FREE);
    }
}

/// Both halves that take a ring over from processes that are gone, one that
/// [opens](what_opens_fits), are in order, whatever those left in the table, as
/// long as no cursor there is past what was published. The consumer holds a
/// slot and resumes at or before the cursor of everyone who held one, up to
/// those more than a lap behind: nothing that was not published as consumed is
/// lost. Buffer and published cursor are as they were.
pub proof fn a_recovered_ring_is_in_order(
    before: Seq<u64>,
    after: Seq<u64>,
    k: GateKind,
    opened: GateOpened,
    producer: u64,
    consumer: u64,
    pid: u32,
    handles: GateHandles,
    floor: u64,
)
    requires
        k.inv(),
        fits(opened, before),
        opened.table_offset == k.table_offset,
        opened.capacity >= 2,
        gate_recovered(
            before,
            after,
            k,
            Ok(opened),
            producer,
            consumer,
            pid,
            Ok((handles, floor)),
        ),
        word(before, OFF_WRITE_CURSOR as int) <= MAX_CURSOR,
        forall|j: int|
            0 <= j < opened.max_slots ==> {
                let cursor = #[trigger] cursor_at(before, opened.table_offset as int, j);
                cursor == DETACHED || cursor <= word(before, OFF_WRITE_CURSOR as int)
            },
    ensures
        handles.producer_side.fits(after),
        handles.producer.inv(handles.producer_side.gate(after)),
        handles.producer.cap() == opened.capacity,
        handles.consumer_side.fits(after),
        handles.consumer_side.registered(handles.consumer, after),
        handles.consumer.cap() == opened.capacity,
        handles.consumer.unread(handles.consumer_side.gate(after)) <= opened.capacity,
        forall|j: int|
            0 <= j < opened.max_slots ==> {
                let cursor = #[trigger] cursor_at(before, opened.table_offset as int, j);
                state_of(control_at(before, opened.table_offset as int, j)) != STATE_FREE && cursor
                    != DETACHED && word(before, OFF_WRITE_CURSOR as int) - cursor
                    <= opened.capacity ==> handles.consumer.read_cursor <= cursor
            },
        word(after, OFF_WRITE_CURSOR as int) == word(before, OFF_WRITE_CURSOR as int),
        forall|i: int|
            opened.table_offset as int / 8 + 16 * opened.max_slots <= i < before.len()
                ==> #[trigger] after[i] == before[i],
{
    let table = opened.table_offset as int;
    let n = opened.max_slots as int;
    let taken = repaired(before.update(5, producer).update(17, 0), k);
    let claim = handles.consumer_side.claim;
    let resume = handles.consumer.read_cursor;
    let gate = gate_of(after, table, n);
    assert forall|j: int| 0 <= j < n implies #[trigger] cursor_at(taken, table, j) == cursor_at(
        before,
        table,
        j,
    ) && control_at(taken, table, j) == control_at(before, table, j) by {}
    assert(taken.len() == before.len() && taken[16] == before[16]);
    lemma_recovered_table(taken, after, opened, consumer, claim, resume);
    lemma_recovered_gate(taken, after, opened, consumer, claim, resume);
    assert forall|j: int| 0 <= j < n && state_of(control_at(before, table, j)) != STATE_FREE
        && #[trigger] cursor_at(before, table, j) != DETACHED && word(
        before,
        OFF_WRITE_CURSOR as int,
    ) - cursor_at(before, table, j) <= opened.capacity implies resume <= cursor_at(
        before,
        table,
        j,
    ) by {
        assert(cursor_at(taken, table, j) == cursor_at(before, table, j));
    }
    assert forall|i: int| table / 8 + 16 * n <= i < before.len() implies #[trigger] after[i]
        == before[i] by {
        assert(after[i] == taken[i]);
    }
}

} // verus!
