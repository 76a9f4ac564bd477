//! What the rings deliver over a run of any length.
//!
//! The contracts of the rings speak of one call. Here a run is a sequence of
//! calls, of the producer and of consumers in any order, and the laws say
//! what one consumer has been handed at its end.

pub mod anchors;
pub mod byte_anchors;
pub mod byte_losses;
pub mod gating;
pub mod losses;

use vstd::prelude::*;

verus! {

/// What one call does to the messages that a consumer has pending.
pub enum Step<M> {
    /// One more message is pending.
    Sent(M),
    /// The consumer took its oldest messages.
    Taken(nat),
    /// Nothing.
    Quiet,
}

/// `after` is what is pending when `before` was and the step was taken.
pub open spec fn follows<M>(before: Seq<M>, after: Seq<M>, step: Step<M>) -> bool {
    match step {
        Step::Sent(m) => after == before.push(m),
        Step::Taken(n) => n <= before.len() && after == before.skip(n as int),
        Step::Quiet => after == before,
    }
}

/// The messages sent in a run.
pub open spec fn sent<M>(steps: Seq<Step<M>>) -> Seq<M>
    decreases steps.len(),
{
    if steps.len() == 0 {
        Seq::empty()
    } else {
        let earlier = sent(steps.drop_last());
        match steps.last() {
            Step::Sent(m) => earlier.push(m),
            _ => earlier,
        }
    }
}

/// The messages that the consumer took in a run.
pub open spec fn taken<M>(pending: Seq<Seq<M>>, steps: Seq<Step<M>>) -> Seq<M>
    decreases steps.len(),
{
    if steps.len() == 0 {
        Seq::empty()
    } else {
        let earlier = taken(pending, steps.drop_last());
        match steps.last() {
            Step::Taken(n) => earlier + pending[steps.len() - 1].take(n as int),
            _ => earlier,
        }
    }
}

/// Over a run, what was taken and what is left is what was there and what was
/// sent, in the same order: nothing is lost, nothing comes twice.
pub proof fn nothing_is_lost<M>(pending: Seq<Seq<M>>, steps: Seq<Step<M>>)
    requires
        pending.len() == steps.len() + 1,
        forall|i: int|
            0 <= i < steps.len() ==> follows(pending[i], pending[i + 1], #[trigger] steps[i]),
    ensures
        taken(pending, steps) + pending.last() == pending[0] + sent(steps),
    decreases steps.len(),
{
    if steps.len() == 0 {
        assert(taken(pending, steps) + pending.last() =~= pending[0] + sent(steps));
    } else {
        let n = steps.len() as int;
        let earlier = steps.drop_last();
        assert forall|i: int| 0 <= i < earlier.len() implies follows(
            pending.drop_last()[i],
            pending.drop_last()[i + 1],
            #[trigger] earlier[i],
        ) by {
            assert(earlier[i] == steps[i]);
        }
        nothing_is_lost(pending.drop_last(), earlier);
        lemma_taken_prefix(pending, earlier);
        assert(follows(pending[n - 1], pending[n], steps[n - 1]));
        let before = pending[n - 1];
        match steps.last() {
            Step::Sent(m) => {
                assert(taken(pending, earlier) + before.push(m) =~= (taken(pending, earlier)
                    + before).push(m));
                assert(pending[0] + sent(earlier).push(m) =~= (pending[0] + sent(earlier)).push(m));
            },
            Step::Taken(k) => {
                assert(before =~= before.take(k as int) + before.skip(k as int));
                assert(taken(pending, earlier) + before.take(k as int) + before.skip(k as int)
                    =~= taken(pending, earlier) + before);
            },
            Step::Quiet => {},
        }
    }
}

proof fn lemma_taken_prefix<M>(pending: Seq<Seq<M>>, steps: Seq<Step<M>>)
    requires
        pending.len() >= steps.len() + 1,
    ensures
        taken(pending, steps) == taken(pending.drop_last(), steps),
    decreases steps.len(),
{
    if steps.len() > 0 {
        lemma_taken_prefix(pending, steps.drop_last());
    }
}

} // verus!
