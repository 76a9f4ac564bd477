//! Leases and consumer tables.
//!
//! Each side of a ring holds a lease: a random token that is never zero and says
//! nothing about whether its holder is alive. A lease that is held is not given
//! out; taking it by force is for a caller who knows that the holder is gone,
//! and a holder whose lease was taken cannot release it any more.
//!
//! The consumers of a gating ring hold slots of a table instead. Every occupancy
//! of a slot has an epoch of its own, which proves to whoever retires a slot
//! that it is still the occupancy that was seen dead.

use crate::arith::lag;
use crate::region::{
    close_generation, closed_generation, control, control_at, control_epoch, control_state,
    control_word, cursor_at, epoch_of, open_generation, opened_generation, read_u64, slot_at,
    slot_word, state_of, store_u64, table_fits, word, ShmError, OFF_CONSUMER_LEASE, OFF_GENERATION,
    OFF_PRODUCER_LEASE, OFF_WRITE_CURSOR, SLOT_CONTROL, SLOT_CURSOR, SLOT_LEASE, STATE_ACTIVE,
    STATE_FREE, STATE_RETIRED,
};
use crate::registry::{guard_sentinel, guarded, DETACHED};
use vstd::prelude::*;

verus! {

/// Which lease a handle holds.
#[derive(Clone, Copy, Debug, PartialEq, Eq, Structural)]
pub enum Role {
    Producer,
    Consumer,
}

impl Role {
    /// The index of the lease word.
    pub open spec fn lease(self) -> int {
        match self {
            Role::Producer => 5,
            Role::Consumer => 6,
        }
    }

    /// The offset of the lease word.
    pub fn lease_offset(self) -> (r: usize)
        ensures
            r == 8 * self.lease(),
    {
        match self {
            Role::Producer => OFF_PRODUCER_LEASE,
            Role::Consumer => OFF_CONSUMER_LEASE,
        }
    }
}

/// Claim a free role. The claim is rolled back where the region was
/// re-initialised since it was validated: the lease would belong to another
/// ring.
pub fn claim_lease(region: &mut [u64], role: Role, generation: u64, token: u64) -> (r: Result<
    u64,
    ShmError,
>)
    requires
        old(region)@.len() >= 48,
        token != 0,
    ensures
        r == claimed_lease(old(region)@, role, generation, token),
        final(region)@ == (if r is Ok {
            old(region)@.update(role.lease(), token)
        } else {
            old(region)@
        }),
{
    let offset: usize = role.lease_offset();
    if read_u64(region, offset) != 0 {
        return Err(ShmError::RoleHeld);
    }
    store_u64(region, offset, token);
    if read_u64(region, OFF_GENERATION) != generation {
        release_lease(region, role, token);
        proof {
            assert(region@ =~= old(region)@);
        }
        return Err(ShmError::ReinitializedWhileAttaching);
    }
    Ok(token)
}

/// The outcome of claiming a role.
pub open spec fn claimed_lease(
    region: Seq<u64>,
    role: Role,
    generation: u64,
    token: u64,
) -> Result<u64, ShmError> {
    if region[role.lease()] != 0 {
        Err(ShmError::RoleHeld)
    } else if word(region, OFF_GENERATION as int) != generation {
        Err(ShmError::ReinitializedWhileAttaching)
    } else {
        Ok(token)
    }
}

/// Take a role, whoever holds it. The caller knows that the holder is gone.
pub fn force_claim_lease(region: &mut [u64], role: Role, token: u64) -> (r: u64)
    requires
        old(region)@.len() >= 48,
        token != 0,
    ensures
        r == token,
        final(region)@ == old(region)@.update(role.lease(), token),
{
    store_u64(region, role.lease_offset(), token);
    token
}

/// The region after a holder of `token` let a role go: a role that somebody
/// else holds by now is left alone.
pub open spec fn released(region: Seq<u64>, role: Role, token: u64) -> Seq<u64> {
    if region[role.lease()] == token {
        region.update(role.lease(), 0)
    } else {
        region
    }
}

/// Let a role go, if it is still held under `token`.
pub fn release_lease(region: &mut [u64], role: Role, token: u64)
    requires
        old(region)@.len() >= 48,
    ensures
        final(region)@ == released(old(region)@, role, token),
{
    let offset: usize = role.lease_offset();
    if read_u64(region, offset) == token {
        store_u64(region, offset, 0);
    }
}

/// A holder whose role was taken by force cannot revoke its successor.
pub proof fn a_stale_holder_cannot_revoke(region: Seq<u64>, role: Role, stale: u64, token: u64)
    requires
        region.len() >= 48,
        stale != token,
    ensures
        released(region.update(role.lease(), token), role, stale)[role.lease()] == token,
{
}

/// A role is given out to one holder at a time: a claim on a held role fails
/// and changes nothing, and what a claim took, a release gives back.
pub proof fn a_role_is_exclusive(region: Seq<u64>, role: Role, generation: u64, token: u64, other: u64)
    requires
        region.len() >= 48,
        token != 0,
        claimed_lease(region, role, generation, token) is Ok,
    ensures
        claimed_lease(region.update(role.lease(), token), role, generation, other) == Err::<
            u64,
            ShmError,
        >(ShmError::RoleHeld),
        released(region.update(role.lease(), token), role, token) == region,
{
    assert(region.update(role.lease(), token).update(role.lease(), 0) =~= region);
}

/// A consumer-table slot that a claimant holds.
#[derive(Clone, Copy)]
pub struct SlotClaim {
    pub slot: usize,
    /// The epoch at which the slot was claimed.
    pub epoch: u32,
    /// The token in the slot's lease word.
    pub token: u64,
    /// Only what is published after this cursor is seen.
    pub joined: u64,
}

/// `slot` is the first free slot of a table, or its end where there is none.
pub open spec fn first_free(
    region: Seq<u64>,
    table_offset: int,
    max_slots: int,
    slot: int,
) -> bool {
    &&& 0 <= slot <= max_slots
    &&& slot < max_slots ==> state_of(control_at(region, table_offset, slot)) == STATE_FREE
    &&& forall|k: int|
        0 <= k < slot ==> state_of(#[trigger] control_at(region, table_offset, k)) != STATE_FREE
}

/// A table with `claim` made in it: the slot is active under a new epoch, its
/// cursor is the published one, and the lease holds the claimant's token.
pub open spec fn with_claim(region: Seq<u64>, table_offset: int, claim: SlotClaim) -> Seq<u64> {
    let slot = claim.slot as int;
    region.update(
        slot_word(table_offset, slot, SLOT_CONTROL as int),
        control(claim.epoch, STATE_ACTIVE),
    ).update(slot_word(table_offset, slot, SLOT_CURSOR as int), guarded(claim.joined)).update(
        slot_word(table_offset, slot, SLOT_LEASE as int),
        claim.token,
    )
}

/// Claim the first free slot of a table. The control word is set, and with it
/// the slot takes part in gating, before the producer's cursor is read for the
/// join point. Every occupancy of a slot has an epoch of its own.
pub fn claim_table_slot(
    region: &mut [u64],
    table_offset: usize,
    max_slots: usize,
    token: u64,
) -> (r: Option<SlotClaim>)
    requires
        table_fits(old(region)@, table_offset as int, max_slots as int),
        token != 0,
    ensures
        match r {
            Some(claim) => {
                &&& claim.slot < max_slots
                &&& first_free(
                    old(region)@,
                    table_offset as int,
                    max_slots as int,
                    claim.slot as int,
                )
                &&& claim.epoch == epoch_of(
                    control_at(old(region)@, table_offset as int, claim.slot as int),
                ).wrapping_add(1)
                &&& claim.token == token
                &&& claim.joined == word(old(region)@, OFF_WRITE_CURSOR as int)
                &&& final(region)@ == with_claim(old(region)@, table_offset as int, claim)
            },
            None => {
                &&& first_free(
                    old(region)@,
                    table_offset as int,
                    max_slots as int,
                    max_slots as int,
                )
                &&& final(region)@ == old(region)@
            },
        },
{
    let len: usize = region.len();
    let mut slot: usize = 0;
    while slot < max_slots
        invariant
            slot <= max_slots,
            len == region@.len(),
            region@ == old(region)@,
            table_fits(region@, table_offset as int, max_slots as int),
            token != 0,
            forall|k: int|
                0 <= k < slot ==> state_of(
                    #[trigger] control_at(region@, table_offset as int, k),
                ) != STATE_FREE,
        decreases max_slots - slot,
    {
        let control_index: usize = slot_at(table_offset, slot, SLOT_CONTROL);
        let current: u64 = region[control_index];
        if control_state(current) == STATE_FREE {
            let epoch: u32 = control_epoch(current).wrapping_add(1);
            region[control_index] = control_word(epoch, STATE_ACTIVE);
            let cursor_index: usize = slot_at(table_offset, slot, SLOT_CURSOR);
            let provisional: u64 = guard_sentinel(read_u64(region, OFF_WRITE_CURSOR));
            region[cursor_index] = provisional;
            let joined: u64 = read_u64(region, OFF_WRITE_CURSOR);
            region[cursor_index] = guard_sentinel(joined);
            let lease_index: usize = slot_at(table_offset, slot, SLOT_LEASE);
            region[lease_index] = token;
            let claim = SlotClaim { slot, epoch, token, joined };
            proof {
                assert(region@ =~= with_claim(old(region)@, table_offset as int, claim));
            }
            return Some(claim);
        }
        slot += 1;
    }
    None
}

/// The words of a slot after its holder let it go: detached cursor, the slot
/// free under the same epoch and the lease free, unless they are somebody
/// else's by now.
pub open spec fn without_claim(region: Seq<u64>, table_offset: int, claim: SlotClaim) -> Seq<u64> {
    let slot = claim.slot as int;
    let c = slot_word(table_offset, slot, SLOT_CONTROL as int);
    let l = slot_word(table_offset, slot, SLOT_LEASE as int);
    let detached = region.update(slot_word(table_offset, slot, SLOT_CURSOR as int), DETACHED);
    let freed = if region[c] == control(claim.epoch, STATE_ACTIVE) {
        detached.update(c, control(claim.epoch, STATE_FREE))
    } else {
        detached
    };
    if region[l] == claim.token {
        freed.update(l, 0)
    } else {
        freed
    }
}

/// Store the detached cursor and give a slot back.
pub fn vacate(region: &mut [u64], table_offset: usize, max_slots: usize, claim: &SlotClaim)
    requires
        table_fits(old(region)@, table_offset as int, max_slots as int),
        claim.slot < max_slots,
    ensures
        final(region)@ == without_claim(old(region)@, table_offset as int, *claim),
{
    let len: usize = region.len();
    let cursor_index: usize = slot_at(table_offset, claim.slot, SLOT_CURSOR);
    region[cursor_index] = DETACHED;
    let control_index: usize = slot_at(table_offset, claim.slot, SLOT_CONTROL);
    if region[control_index] == control_word(claim.epoch, STATE_ACTIVE) {
        region[control_index] = control_word(claim.epoch, STATE_FREE);
    }
    let lease_index: usize = slot_at(table_offset, claim.slot, SLOT_LEASE);
    if region[lease_index] == claim.token {
        region[lease_index] = 0;
    }
    proof {
        assert(region@ =~= without_claim(old(region)@, table_offset as int, *claim));
    }
}

/// Roll a claim back, but only under the generation that it was made under: a
/// table that was reset meanwhile belongs to others and is left alone.
pub fn release_table_claim(
    region: &mut [u64],
    table_offset: usize,
    max_slots: usize,
    claim: &SlotClaim,
    generation: u64,
)
    requires
        table_fits(old(region)@, table_offset as int, max_slots as int),
        claim.slot < max_slots,
    ensures
        final(region)@ == (if word(old(region)@, OFF_GENERATION as int) == generation {
            without_claim(old(region)@, table_offset as int, *claim)
        } else {
            old(region)@
        }),
{
    if read_u64(region, OFF_GENERATION) != generation {
        return;
    }
    vacate(region, table_offset, max_slots, claim);
}

/// Retire a slot: take it from its holder for good, if it is still held under
/// `epoch`. The epoch proves that the occupancy is the one that the caller saw
/// dead.
pub fn force_detach_table_slot(
    region: &mut [u64],
    table_offset: usize,
    max_slots: usize,
    slot: usize,
    epoch: u32,
) -> (r: Result<(), ShmError>)
    requires
        table_fits(old(region)@, table_offset as int, max_slots as int),
        slot < max_slots,
    ensures
        r == retired(old(region)@, table_offset as int, slot as int, epoch),
        final(region)@ == (if r is Ok {
            old(region)@.update(
                slot_word(table_offset as int, slot as int, SLOT_CONTROL as int),
                control(epoch.wrapping_add(1), STATE_RETIRED),
            )
        } else {
            old(region)@
        }),
{
    let len: usize = region.len();
    let control_index: usize = slot_at(table_offset, slot, SLOT_CONTROL);
    if region[control_index] != control_word(epoch, STATE_ACTIVE) {
        return Err(ShmError::EpochMismatch);
    }
    region[control_index] = control_word(epoch.wrapping_add(1), STATE_RETIRED);
    Ok(())
}

/// The outcome of retiring a slot.
pub open spec fn retired(region: Seq<u64>, table_offset: int, slot: int, epoch: u32) -> Result<
    (),
    ShmError,
> {
    if control_at(region, table_offset, slot) == control(epoch, STATE_ACTIVE) {
        Ok(())
    } else {
        Err(ShmError::EpochMismatch)
    }
}

/// How far a slot is behind `tail`, where it counts for the resume point: it
/// was held, it has a cursor, and it is at most one lap behind.
pub open spec fn resume_lag(
    region: Seq<u64>,
    table_offset: int,
    slot: int,
    tail: u64,
    capacity: u64,
) -> nat {
    let cursor = cursor_at(region, table_offset, slot);
    if state_of(control_at(region, table_offset, slot)) == STATE_FREE || cursor == DETACHED || lag(
        tail,
        cursor,
    ) > capacity {
        0
    } else {
        lag(tail, cursor)
    }
}

/// `furthest` is the largest lag of the first `n` slots.
pub open spec fn largest_lag(
    region: Seq<u64>,
    table_offset: int,
    n: int,
    tail: u64,
    capacity: u64,
    furthest: nat,
) -> bool {
    &&& forall|k: int|
        0 <= k < n ==> #[trigger] resume_lag(region, table_offset, k, tail, capacity) <= furthest
    &&& furthest == 0 || exists|k: int|
        0 <= k < n && #[trigger] resume_lag(region, table_offset, k, tail, capacity) == furthest
}

/// The word of a reset table.
pub open spec fn reset_word(
    before: Seq<u64>,
    i: int,
    table_offset: int,
    max_slots: int,
) -> u64 {
    let k = i - table_offset / 8;
    if !(0 <= k < 16 * max_slots) {
        before[i]
    } else if k % 16 == 0 {
        0
    } else if k % 16 == 1 {
        control(epoch_of(before[i]).wrapping_add(1), STATE_FREE)
    } else if k % 16 == 2 {
        DETACHED
    } else {
        before[i]
    }
}

/// Reset a table: every slot is free under a new epoch, without a lease and
/// detached. The result is the cursor of the slowest consumer that was
/// registered, from which a successor resumes; consumers more than a lap
/// behind had lost their claim already. The generation changes, so that a
/// claim that was made meanwhile is noticed.
pub fn reset_gate_table(
    region: &mut [u64],
    table_offset: usize,
    max_slots: usize,
    capacity: u64,
) -> (r: u64)
    requires
        table_fits(old(region)@, table_offset as int, max_slots as int),
    ensures
        ({
            let tail = word(old(region)@, OFF_WRITE_CURSOR as int);
            exists|furthest: u64| #[trigger]
                largest_lag(
                    old(region)@,
                    table_offset as int,
                    max_slots as int,
                    tail,
                    capacity,
                    furthest as nat,
                ) && r == tail.wrapping_sub(furthest)
        }),
        final(region)@ == Seq::new(
            old(region)@.len(),
            |i: int|
                if i == 7 {
                    closed_generation(old(region)@[7])
                } else {
                    reset_word(old(region)@, i, table_offset as int, max_slots as int)
                },
        ),
{
    let len: usize = region.len();
    let g: u64 = open_generation(region);
    let ghost opened = region@;
    let tail: u64 = read_u64(region, OFF_WRITE_CURSOR);
    proof {
        assert(tail == word(old(region)@, OFF_WRITE_CURSOR as int));
    }
    let mut max_lag: u64 = 0;
    let mut slot: usize = 0;
    while slot < max_slots
        invariant
            slot <= max_slots,
            len == region@.len(),
            region@ == opened,
            len == old(region)@.len(),
            opened == old(region)@.update(7, opened_generation(g)),
            table_fits(region@, table_offset as int, max_slots as int),
            largest_lag(
                old(region)@,
                table_offset as int,
                slot as int,
                tail,
                capacity,
                max_lag as nat,
            ),
        decreases max_slots - slot,
    {
        let control_index: usize = slot_at(table_offset, slot, SLOT_CONTROL);
        let cursor_index: usize = slot_at(table_offset, slot, SLOT_CURSOR);
        let ghost here = resume_lag(
            old(region)@,
            table_offset as int,
            slot as int,
            tail,
            capacity,
        );
        let ghost before = max_lag;
        proof {
            assert(region@[control_index as int] == old(region)@[control_index as int]);
            assert(region@[cursor_index as int] == old(region)@[cursor_index as int]);
        }
        if control_state(region[control_index]) != STATE_FREE {
            let cursor: u64 = region[cursor_index];
            if cursor != DETACHED {
                let lag: u64 = tail.wrapping_sub(cursor);
                if lag <= capacity && lag > max_lag {
                    max_lag = lag;
                }
            }
        }
        proof {
            assert(max_lag == if here > before {
                here
            } else {
                before as nat
            });
            if max_lag != before {
                assert(resume_lag(
                    old(region)@,
                    table_offset as int,
                    slot as int,
                    tail,
                    capacity,
                ) == max_lag);
            } else if max_lag != 0 {
                let k = choose|k: int|
                    0 <= k < slot && #[trigger] resume_lag(
                        old(region)@,
                        table_offset as int,
                        k,
                        tail,
                        capacity,
                    ) == before;
                assert(resume_lag(old(region)@, table_offset as int, k, tail, capacity)
                    == max_lag);
            }
        }
        slot += 1;
    }
    slot = 0;
    while slot < max_slots
        invariant
            slot <= max_slots,
            len == region@.len(),
            len == opened.len(),
            table_fits(region@, table_offset as int, max_slots as int),
            largest_lag(
                old(region)@,
                table_offset as int,
                max_slots as int,
                tail,
                capacity,
                max_lag as nat,
            ),
            forall|i: int|
                0 <= i < len ==> #[trigger] region@[i] == reset_word(
                    opened,
                    i,
                    table_offset as int,
                    slot as int,
                ),
        decreases max_slots - slot,
    {
        let cursor_index: usize = slot_at(table_offset, slot, SLOT_CURSOR);
        region[cursor_index] = DETACHED;
        let lease_index: usize = slot_at(table_offset, slot, SLOT_LEASE);
        region[lease_index] = 0;
        let control_index: usize = slot_at(table_offset, slot, SLOT_CONTROL);
        let current: u64 = region[control_index];
        region[control_index] = control_word(control_epoch(current).wrapping_add(1), STATE_FREE);
        slot += 1;
    }
    close_generation(region, g);
    proof {
        assert(largest_lag(
            old(region)@,
            table_offset as int,
            max_slots as int,
            tail,
            capacity,
            max_lag as nat,
        ));
        assert(region@ =~= Seq::new(
            old(region)@.len(),
            |i: int|
                if i == 7 {
                    closed_generation(old(region)@[7])
                } else {
                    reset_word(old(region)@, i, table_offset as int, max_slots as int)
                },
        ));
    }
    tail.wrapping_sub(max_lag)
}

} // verus!
