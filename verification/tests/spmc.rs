//! The gating ring of elements.

use rust_rb::spmc::{Closed, Consumer, RingBuffer, SubscribeError};
use rust_rb::wait::YieldWait;
use std::mem::ManuallyDrop;
use std::rc::Rc;

fn drain<T: Clone>(consumer: &mut Consumer, ring: &mut RingBuffer<T>) -> Vec<T> {
    let mut out = Vec::new();
    let n = consumer.drain(ring, |v: &T| out.push(v.clone()));
    assert_eq!(n, out.len());
    out
}

#[test]
fn every_consumer_gets_every_message() {
    let (mut ring, mut tx, mut a) = RingBuffer::<String>::new(4);
    let mut b = tx.subscribe(&mut ring).unwrap();
    tx.push(&mut ring, "one".to_string());
    tx.push(&mut ring, "two".to_string());
    assert_eq!(a.len(&ring), 2);
    assert_eq!(a.pop(&mut ring), Ok("one".to_string()));
    assert_eq!(a.try_pop(&mut ring), Ok(Some("two".to_string())));
    assert_eq!(a.try_pop(&mut ring), Ok(None));
    assert_eq!(b.try_pop(&mut ring), Ok(Some("one".to_string())));
    assert_eq!(b.try_pop(&mut ring), Ok(Some("two".to_string())));
    assert!(b.is_empty(&ring));
}

#[test]
fn the_slowest_consumer_holds_the_producer_back() {
    let (mut ring, mut tx, mut fast) = RingBuffer::<u32>::new(2);
    let mut slow = fast.subscribe(&mut ring).unwrap();
    assert_eq!(tx.try_push(&mut ring, 1), Ok(()));
    assert_eq!(tx.try_push(&mut ring, 2), Ok(()));
    assert_eq!(fast.try_pop(&mut ring), Ok(Some(1)));
    assert_eq!(fast.try_pop(&mut ring), Ok(Some(2)));
    assert_eq!(tx.try_push(&mut ring, 3), Err(3));
    assert!(tx.is_full());
    assert_eq!(tx.len(), 2);
    assert_eq!(slow.try_pop(&mut ring), Ok(Some(1)));
    assert!(tx.has_space(&ring));
    tx.push(&mut ring, 3);
    assert_eq!(slow.try_pop(&mut ring), Ok(Some(2)));
    assert_eq!(slow.try_pop(&mut ring), Ok(Some(3)));
    assert_eq!(fast.try_pop(&mut ring), Ok(Some(3)));
}

#[test]
fn a_departed_consumer_lets_the_producer_go() {
    let (mut ring, mut tx, rx) = RingBuffer::<u32>::new(2);
    tx.push(&mut ring, 1);
    tx.push(&mut ring, 2);
    assert_eq!(tx.try_push(&mut ring, 3), Err(3));
    assert_eq!(tx.consumer_count(&ring), 1);
    rx.detach(&mut ring);
    assert_eq!(tx.consumer_count(&ring), 0);
    for i in 0..100 {
        assert_eq!(tx.try_push(&mut ring, i), Ok(()));
    }
}

#[test]
fn a_joiner_sees_only_what_comes_after() {
    let (mut ring, mut tx, first) = RingBuffer::<u32>::new(4);
    first.detach(&mut ring);
    for i in 0..50 {
        tx.push(&mut ring, i);
    }
    let mut rx = tx.subscribe(&mut ring).unwrap();
    assert_eq!(rx.try_pop(&mut ring), Ok(None));
    tx.push(&mut ring, 50);
    assert_eq!(rx.try_pop(&mut ring), Ok(Some(50)));
    for i in 51..55 {
        assert_eq!(tx.try_push(&mut ring, i), Ok(()));
    }
    assert_eq!(tx.try_push(&mut ring, 55), Err(55));
    assert_eq!(drain(&mut rx, &mut ring), vec![51]);
}

#[test]
fn closed_after_draining() {
    let (mut ring, mut tx, mut rx) = RingBuffer::<u32>::new(4);
    tx.push(&mut ring, 7);
    assert_eq!(rx.try_pop(&mut ring), Ok(Some(7)));
    assert_eq!(rx.try_pop(&mut ring), Ok(None));
    tx.push(&mut ring, 8);
    assert!(!rx.is_empty(&ring));
    tx.close(&mut ring);
    assert!(rx.ready(&ring));
    assert_eq!(rx.pop(&mut ring), Ok(8));
    assert_eq!(rx.pop(&mut ring), Err(Closed));
    assert_eq!(rx.try_pop(&mut ring), Err(Closed));
    assert_eq!(rx.subscribe(&mut ring).err(), Some(SubscribeError::Closed));
}

#[test]
fn errors_in_words() {
    assert_eq!(
        Closed.message(),
        "ring closed: producer dropped and all published messages consumed"
    );
    assert_eq!(SubscribeError::Closed.message(), "ring closed: producer dropped");
    assert_eq!(SubscribeError::Full.message(), "consumer registry is full");
}

#[test]
fn a_borrow_holds_the_message() {
    let (mut ring, mut tx, mut rx) = RingBuffer::<String>::new(2);
    tx.push(&mut ring, "a".to_string());
    let borrow = rx.pop_ref(&ring).unwrap();
    assert_eq!(borrow.get(&rx, &ring), "a");
    assert_eq!(rx.len(&ring), 1);
    borrow.release(&mut rx, &mut ring);
    assert_eq!(rx.len(&ring), 0);
    assert!(rx.try_pop_ref(&ring).unwrap().is_none());
    tx.close(&mut ring);
    assert!(rx.try_pop_ref(&ring).is_err());
    assert!(rx.pop_ref(&ring).is_err());
}

#[test]
fn claims_are_published_by_a_commit() {
    let (mut ring, mut tx, mut rx) = RingBuffer::<u32>::new(2);
    let slot = tx.claim(&mut ring);
    slot.commit(&mut tx, &mut ring, 5);
    let slot = tx.try_claim(&mut ring).unwrap();
    drop(slot);
    let mut slot = tx.try_claim(&mut ring).unwrap();
    *slot.uninit(&tx, &mut ring) = Some(ManuallyDrop::new(6));
    slot.commit_init(&mut tx, &mut ring);
    assert!(tx.try_claim(&mut ring).is_none());
    assert_eq!(drain(&mut rx, &mut ring), vec![5]);
    assert_eq!(drain(&mut rx, &mut ring), vec![6]);
    assert_eq!(drain(&mut rx, &mut ring), Vec::<u32>::new());
}

#[test]
fn a_message_is_dropped_when_its_slot_is_claimed_again() {
    let (mut ring, mut tx, mut rx) = RingBuffer::<Rc<u32>>::new(2);
    let first = Rc::new(1);
    tx.push(&mut ring, first.clone());
    tx.push(&mut ring, Rc::new(2));
    assert_eq!(Rc::strong_count(&first), 2);
    assert_eq!(drain(&mut rx, &mut ring).len(), 1);
    assert_eq!(drain(&mut rx, &mut ring).len(), 1);
    assert_eq!(Rc::strong_count(&first), 2);
    let slot = tx.claim(&mut ring);
    assert_eq!(Rc::strong_count(&first), 1);
    slot.commit(&mut tx, &mut ring, Rc::new(3));
    assert_eq!(*rx.pop(&mut ring).unwrap(), 3);
}

#[test]
fn progress_is_published_in_batches() {
    let (mut ring, mut tx, mut rx) = RingBuffer::<u32>::new(64);
    for i in 0..40 {
        tx.push(&mut ring, i);
    }
    for i in 0..7 {
        assert_eq!(rx.try_pop(&mut ring), Ok(Some(i)));
    }
    assert_eq!(rx.core.published, 0);
    assert_eq!(rx.try_pop(&mut ring), Ok(Some(7)));
    assert_eq!(rx.core.published, 8);
    assert_eq!(drain(&mut rx, &mut ring), (8..16).collect::<Vec<u32>>());
    assert_eq!(rx.core.published, 16);
}

#[test]
fn more_consumers_than_one_chunk_holds() {
    let (mut ring, mut tx, first) = RingBuffer::<u32>::new(4);
    let mut all = vec![first];
    for _ in 0..70 {
        let next = tx.subscribe(&mut ring).unwrap();
        all.push(next);
    }
    assert_eq!(tx.consumer_count(&ring), 71);
    assert_eq!(all[64].core.slot.chunk, 1);
    for i in 0..4 {
        tx.push(&mut ring, i);
    }
    assert_eq!(tx.try_push(&mut ring, 4), Err(4));
    for rx in all.iter_mut() {
        for i in 0..4 {
            assert_eq!(rx.try_pop(&mut ring), Ok(Some(i)));
        }
    }
    assert_eq!(tx.try_push(&mut ring, 4), Ok(()));
    let third = all.remove(3);
    third.detach(&mut ring);
    let again = tx.subscribe(&mut ring).unwrap();
    assert_eq!((again.core.slot.chunk, again.core.slot.slot_idx), (0, 3));
}

#[test]
fn capacities_are_rounded_up() {
    let (ring, tx, rx) = RingBuffer::<u8, YieldWait, YieldWait>::with_wait_strategies(5);
    assert_eq!(ring.buffer.len(), 8);
    assert_eq!(tx.capacity(), 8);
    assert_eq!(rx.capacity(), 8);
    assert!(tx.is_empty());
    let (ring, _, _) = RingBuffer::<u8>::new(1);
    assert_eq!(ring.buffer.len(), 2);
}

#[test]
fn values_are_dropped_once_and_an_abandoned_one_never() {
    let token = Rc::new(());
    let (mut ring, mut tx, rx) = RingBuffer::<Rc<()>>::new(2);
    rx.detach(&mut ring);
    for _ in 0..5 {
        tx.push(&mut ring, token.clone());
        assert!(Rc::strong_count(&token) <= 3);
    }
    assert_eq!(Rc::strong_count(&token), 3);
    let mut slot = tx.claim(&mut ring);
    assert_eq!(Rc::strong_count(&token), 2);
    *slot.uninit(&tx, &mut ring) = Some(ManuallyDrop::new(token.clone()));
    *slot.uninit(&tx, &mut ring) = Some(ManuallyDrop::new(token.clone()));
    assert_eq!(Rc::strong_count(&token), 4);
    tx.push(&mut ring, token.clone());
    assert_eq!(Rc::strong_count(&token), 5);
    tx.close(&mut ring);
    ring.drop_live();
    assert_eq!(ring.dropped_through, 6);
    assert_eq!(Rc::strong_count(&token), 3);
    drop(ring);
    assert_eq!(Rc::strong_count(&token), 3);
}

#[test]
fn a_drain_hands_out_values_that_cannot_be_cloned() {
    struct Once(u32);
    let (mut ring, mut tx, mut rx) = RingBuffer::<Once>::new(16);
    for i in 0..3 {
        tx.push(&mut ring, Once(i));
    }
    let mut seen = Vec::new();
    assert_eq!(rx.drain(&mut ring, |v: &Once| seen.push(v.0)), 2);
    assert_eq!(rx.drain(&mut ring, |v: &Once| seen.push(v.0)), 1);
    assert_eq!(rx.drain(&mut ring, |v: &Once| seen.push(v.0)), 0);
    assert_eq!(seen, [0, 1, 2]);
    ring.drop_live();
}
