//! Memory whose changes are announced by a stamp.
//!
//! A writer makes the stamp odd, changes what the stamp guards, and makes it
//! even and larger. A reader looks at the stamp, copies, and looks again: where
//! it found the same even stamp both times, nothing changed in between, and its
//! copy is what was there all along. The slots of the lossy rings and the
//! headers of the shared-memory rings work this way.

use crate::region::{closed_generation, opened_generation};
use crate::seqlock::{holds, laid_out, Slot};
use vstd::arithmetic::div_mod::lemma_mod_bound;
use vstd::prelude::*;

verus! {

/// A guarded memory at one moment.
pub struct Stamped<S> {
    pub stamp: int,
    pub state: S,
}

/// One thing that a writer does: the stamp never goes back, and the state
/// changes only under a stamp that is odd and stays as it is.
pub open spec fn writer_step<S>(a: Stamped<S>, b: Stamped<S>) -> bool {
    &&& a.stamp <= b.stamp
    &&& b.state != a.state ==> a.stamp % 2 == 1 && b.stamp == a.stamp
}

/// A run of a writer.
pub open spec fn writer_run<S>(run: Seq<Stamped<S>>) -> bool {
    forall|t: int| 0 <= t < run.len() - 1 ==> writer_step(#[trigger] run[t], run[t + 1])
}

proof fn lemma_stamp_grows<S>(run: Seq<Stamped<S>>, from: int, to: int)
    requires
        writer_run(run),
        0 <= from <= to < run.len(),
    ensures
        run[from].stamp <= run[to].stamp,
    decreases to - from,
{
    if from < to {
        lemma_stamp_grows(run, from, to - 1);
        assert(writer_step(run[to - 1], run[(to - 1) + 1]));
    }
}

/// Between two looks that find the same even stamp, nothing changes.
pub proof fn a_stable_stamp_means_no_change<S>(
    run: Seq<Stamped<S>>,
    first: int,
    moment: int,
    last: int,
)
    requires
        writer_run(run),
        0 <= first <= moment <= last < run.len(),
        run[first].stamp == run[last].stamp,
        run[first].stamp % 2 == 0,
    ensures
        run[moment].stamp == run[first].stamp,
        run[moment].state == run[first].state,
    decreases moment - first,
{
    lemma_stamp_grows(run, first, moment);
    lemma_stamp_grows(run, moment, last);
    if moment > first {
        a_stable_stamp_means_no_change(run, first, moment - 1, last);
        assert(writer_step(run[moment - 1], run[(moment - 1) + 1]));
    }
}

/// A copy that a reader accepts is never torn: however its words were read, one
/// by one and in any order, between two looks that found the same even stamp,
/// it is what the memory held.
pub proof fn an_accepted_copy_is_never_torn<W>(
    run: Seq<Stamped<Seq<W>>>,
    first: int,
    reads: Seq<int>,
    last: int,
    copy: Seq<W>,
)
    requires
        writer_run(run),
        0 <= first <= last < run.len(),
        run[first].stamp == run[last].stamp,
        run[first].stamp % 2 == 0,
        copy.len() == run[first].state.len(),
        reads.len() == copy.len(),
        forall|k: int|
            0 <= k < copy.len() ==> first <= #[trigger] reads[k] <= last && copy[k]
                == run[reads[k]].state[k],
    ensures
        copy == run[first].state,
{
    assert forall|k: int| 0 <= k < copy.len() implies copy[k] == run[first].state[k] by {
        assert(first <= reads[k] <= last);
        a_stable_stamp_means_no_change(run, first, reads[k], last);
    }
    assert(copy =~= run[first].state);
}

/// A slot as a guarded memory.
pub open spec fn slot_moment<T>(slot: Slot<T>) -> Stamped<Option<T>> {
    Stamped { stamp: slot.seq as int, state: slot.data }
}

/// Writing message `s` into its slot is announced: the moments before, after
/// the announcement, after the payload and after the publication are a run of a
/// writer.
pub proof fn a_slot_write_is_announced<T>(slots: Seq<Slot<T>>, s: int, value: T) -> (run: Seq<
    Stamped<Option<T>>,
>)
    requires
        laid_out(slots, s),
        0 <= s,
    ensures
        writer_run(run),
        run.len() == 4,
        run[0] == slot_moment(slots[s % slots.len() as int]),
        run[1] == (Stamped { stamp: 2 * s + 1, state: run[0].state }),
        run[2] == (Stamped { stamp: 2 * s + 1, state: Some(value) }),
        run[3] == (Stamped { stamp: 2 * s + 2, state: Some(value) }),
{
    let cap = slots.len() as int;
    let before = slots[s % cap];
    lemma_mod_bound(s, cap);
    assert(before.seq <= 2 * s) by {
        if s >= cap {
            crate::arith::lemma_next_lap(s, cap);
            assert(holds(slots, s - cap));
        } else {
            vstd::arithmetic::div_mod::lemma_small_mod(s as nat, cap as nat);
            assert(slots[s].seq == 0);
        }
    }
    let m0 = slot_moment(before);
    let m1 = Stamped { stamp: 2 * s + 1, state: before.data };
    let m2 = Stamped { stamp: 2 * s + 1, state: Some(value) };
    let m3 = Stamped { stamp: 2 * s + 2, state: Some(value) };
    seq![m0, m1, m2, m3]
}

/// A region as a guarded memory: the generation guards the fields before it,
/// from the magic to the leases.
pub open spec fn region_moment(region: Seq<u64>) -> Stamped<Seq<u64>> {
    Stamped { stamp: region[7] as int, state: region.take(7) }
}

/// Re-initialising a region is announced, whatever is written into its header
/// meanwhile: whoever finds the same even generation before and after reading a
/// header has read one header and not a mixture of two.
pub proof fn a_reinitialization_is_announced(before: Seq<u64>, written: Seq<u64>) -> (run: Seq<
    Stamped<Seq<u64>>,
>)
    requires
        before.len() >= 48,
        written.len() == before.len(),
        before[7] < u64::MAX - 1,
        written[7] == opened_generation(before[7]),
    ensures
        writer_run(run),
        run.len() == 4,
        run[0] == region_moment(before),
        run[1] == region_moment(before.update(7, opened_generation(before[7]))),
        run[2] == region_moment(written),
        run[3] == region_moment(written.update(7, closed_generation(before[7]))),
        run[3].stamp % 2 == 0,
        run[0].stamp < run[3].stamp,
{
    let m0 = region_moment(before);
    let m1 = region_moment(before.update(7, opened_generation(before[7])));
    let m2 = region_moment(written);
    let m3 = region_moment(written.update(7, closed_generation(before[7])));
    assert(before.update(7, opened_generation(before[7])).take(7) =~= before.take(7));
    assert(written.update(7, closed_generation(before[7])).take(7) =~= written.take(7));
    seq![m0, m1, m2, m3]
}

} // verus!
