//! What a batch of messages is handed to.

use vstd::prelude::*;

verus! {

/// A receiver of messages: a closure, or a value of its own that changes with
/// every message it is handed.
pub trait Handler<T: ?Sized>: Sized {
    /// The message may be handed over. What is accepted once stays accepted.
    spec fn accepts(&self, msg: &T) -> bool;

    /// What one call with a message makes of the receiver.
    spec fn takes(&self, msg: &T, after: &Self) -> bool;

    /// Take a message.
    fn handle(&mut self, msg: &T)
        requires
            old(self).accepts(msg),
        ensures
            old(self).takes(msg, final(self)),
            forall|m: &T| old(self).accepts(m) ==> #[trigger] final(self).accepts(m),
    ;
}

/// A closure is called. What it holds has no place in a contract: it is the
/// same closure afterwards.
impl<T: ?Sized, F: FnMut(&T)> Handler<T> for F {
    open spec fn accepts(&self, msg: &T) -> bool {
        call_requires(*self, (msg,))
    }

    open spec fn takes(&self, msg: &T, after: &Self) -> bool {
        call_ensures(*self, (msg,), ()) && *after == *self
    }

    fn handle(&mut self, msg: &T) {
        self(msg)
    }
}

/// The receiver was handed exactly these messages: one call for each, in this
/// order, and no other.
pub open spec fn took<T, H: Handler<T>>(before: H, msgs: Seq<T>, after: H) -> bool
    decreases msgs.len(),
{
    if msgs.len() == 0 {
        after == before
    } else {
        exists|mid: H|
            took(before, msgs.drop_last(), mid) && #[trigger] mid.takes(&msgs.last(), &after)
    }
}

/// The receiver was handed exactly these runs: one call for each, in this
/// order, and no other.
pub open spec fn took_runs<T, H: Handler<[T]>>(before: H, msgs: Seq<Seq<T>>, after: H) -> bool
    decreases msgs.len(),
{
    if msgs.len() == 0 {
        after == before
    } else {
        exists|mid: H, m: &[T]|
            took_runs(before, msgs.drop_last(), mid) && m@ == msgs.last() && #[trigger] mid.takes(
                m,
                &after,
            )
    }
}

/// One more call.
pub proof fn lemma_took<T, H: Handler<T>>(before: H, msgs: Seq<T>, mid: H, msg: T, after: H)
    requires
        took(before, msgs, mid),
        mid.takes(&msg, &after),
    ensures
        took(before, msgs.push(msg), after),
{
    assert(msgs.push(msg).drop_last() =~= msgs);
    assert(mid.takes(&msgs.push(msg).last(), &after));
}

/// One more call.
pub proof fn lemma_took_run<T, H: Handler<[T]>>(
    before: H,
    msgs: Seq<Seq<T>>,
    mid: H,
    msg: &[T],
    after: H,
)
    requires
        took_runs(before, msgs, mid),
        mid.takes(msg, &after),
    ensures
        took_runs(before, msgs.push(msg@), after),
{
    assert(msgs.push(msg@).drop_last() =~= msgs);
    assert(msg@ == msgs.push(msg@).last());
}

/// Whatever a receiver keeps a log in, the log grows by exactly the messages
/// that were handed over: each once, in order.
pub proof fn a_log_grows_by_what_was_handed_over<T, H: Handler<T>>(
    before: H,
    msgs: Seq<T>,
    after: H,
    log: spec_fn(H) -> Seq<T>,
)
    requires
        took(before, msgs, after),
        forall|a: H, m: &T, b: H| #[trigger] a.takes(m, &b) ==> log(b) == log(a).push(*m),
    ensures
        log(after) == log(before) + msgs,
    decreases msgs.len(),
{
    if msgs.len() > 0 {
        let mid = choose|mid: H|
            took(before, msgs.drop_last(), mid) && #[trigger] mid.takes(&msgs.last(), &after);
        a_log_grows_by_what_was_handed_over(before, msgs.drop_last(), mid, log);
    }
    assert(log(after) =~= log(before) + msgs);
}

/// Whatever a receiver keeps a log in, the log grows by exactly the runs that
/// were handed over: each once, in order.
pub proof fn a_log_grows_by_the_runs_handed_over<T, H: Handler<[T]>>(
    before: H,
    msgs: Seq<Seq<T>>,
    after: H,
    log: spec_fn(H) -> Seq<Seq<T>>,
)
    requires
        took_runs(before, msgs, after),
        forall|a: H, m: &[T], b: H| #[trigger] a.takes(m, &b) ==> log(b) == log(a).push(m@),
    ensures
        log(after) == log(before) + msgs,
    decreases msgs.len(),
{
    if msgs.len() > 0 {
        let (mid, m) = choose|mid: H, m: &[T]|
            took_runs(before, msgs.drop_last(), mid) && m@ == msgs.last() && #[trigger] mid.takes(
                m,
                &after,
            );
        a_log_grows_by_the_runs_handed_over(before, msgs.drop_last(), mid, log);
    }
    assert(log(after) =~= log(before) + msgs);
}

/// A closure was called on each of the messages.
pub proof fn a_closure_is_called_on_each<T, F: FnMut(&T)>(f: F, msgs: Seq<T>, after: F)
    requires
        took::<T, F>(f, msgs, after),
    ensures
        after == f,
        forall|i: int| 0 <= i < msgs.len() ==> call_ensures(f, (&(#[trigger] msgs[i]),), ()),
    decreases msgs.len(),
{
    if msgs.len() > 0 {
        let mid = choose|mid: F|
            took::<T, F>(f, msgs.drop_last(), mid) && #[trigger] Handler::<T>::takes(
                &mid,
                &msgs.last(),
                &after,
            );
        a_closure_is_called_on_each(f, msgs.drop_last(), mid);
        assert forall|i: int| 0 <= i < msgs.len() implies call_ensures(
            f,
            (&(#[trigger] msgs[i]),),
            (),
        ) by {
            if i < msgs.len() - 1 {
                assert(msgs.drop_last()[i] == msgs[i]);
            }
        }
    }
}

/// A run was handed to `f`.
pub open spec fn handed<T, F: FnMut(&[T])>(f: F, msg: Seq<T>) -> bool {
    exists|m: &[T]| m@ == msg && #[trigger] call_ensures(f, (m,), ())
}

/// A closure was called on each of the runs.
pub proof fn a_closure_is_called_on_each_run<T, F: FnMut(&[T])>(f: F, msgs: Seq<Seq<T>>, after: F)
    requires
        took_runs::<T, F>(f, msgs, after),
    ensures
        after == f,
        forall|i: int| 0 <= i < msgs.len() ==> handed(f, #[trigger] msgs[i]),
    decreases msgs.len(),
{
    if msgs.len() > 0 {
        let (mid, m) = choose|mid: F, m: &[T]|
            took_runs::<T, F>(f, msgs.drop_last(), mid) && m@ == msgs.last()
                && #[trigger] Handler::<[T]>::takes(&mid, m, &after);
        a_closure_is_called_on_each_run(f, msgs.drop_last(), mid);
        assert(call_ensures(f, (m,), ()));
        assert forall|i: int| 0 <= i < msgs.len() implies handed(f, #[trigger] msgs[i]) by {
            if i < msgs.len() - 1 {
                assert(msgs.drop_last()[i] == msgs[i]);
            }
        }
    }
}

} // verus!
