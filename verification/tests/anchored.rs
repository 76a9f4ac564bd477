//! The rings with anchors and observers.

use rust_rb::anchored::{Anchor, RingBuffer};
use rust_rb::anchored_bytes::{BytesAnchor, BytesRingBuffer};
use rust_rb::broadcast::{NoUninit, PopError};
use rust_rb::broadcast_bytes;
use rust_rb::spmc::{Closed, SubscribeError};
use rust_rb::wait::YieldWait;

fn drain<T: NoUninit>(anchor: &mut Anchor, ring: &mut RingBuffer<T>) -> Vec<T> {
    let mut out = Vec::new();
    let n = anchor.drain(ring, |v: &T| out.push(*v));
    assert_eq!(n, out.len());
    out
}

fn drain_bytes(anchor: &mut BytesAnchor, ring: &mut BytesRingBuffer) -> Vec<Vec<u8>> {
    let mut out = Vec::new();
    let n = anchor.drain(ring, |m: &[u8]| out.push(m.to_vec()));
    assert_eq!(n, out.len());
    out
}

#[test]
fn anchors_hold_back_and_observers_do_not() {
    let (mut ring, mut tx, mut anchor) = RingBuffer::<u64>::new(4);
    let mut observer = tx.subscribe_observer(&ring);
    for i in 0..4 {
        tx.push(&mut ring, i);
    }
    assert_eq!(tx.try_push(&mut ring, 4), Err(4));
    for i in 0..4 {
        assert_eq!(anchor.pop(&mut ring), Ok(i));
    }
    for i in 4..8 {
        assert_eq!(tx.try_push(&mut ring, i), Ok(()));
    }
    assert_eq!(observer.try_pop(&ring), Err(PopError::Lagged { missed: 5 }));
    for i in 5..8 {
        assert_eq!(observer.pop(&ring), Ok(i));
    }
    for i in 4..8 {
        assert_eq!(anchor.try_pop(&mut ring), Ok(Some(i)));
    }
    assert_eq!(anchor.try_pop(&mut ring), Ok(None));
    assert_eq!(observer.try_pop(&ring), Ok(None));
    assert_eq!(tx.tail(), 8);
}

#[test]
fn without_anchors_the_producer_runs_freely() {
    let (mut ring, mut tx, anchor) = RingBuffer::<u64>::with_slack(8, 3);
    anchor.detach(&mut ring);
    assert_eq!(tx.anchor_count(&ring), 0);
    let mut observer = tx.subscribe_observer(&ring);
    for i in 0..100 {
        assert!(tx.has_space(&ring));
        tx.push(&mut ring, i);
    }
    assert_eq!(observer.lag(&ring), 100);
    assert_eq!(observer.pop(&ring), Err(PopError::Lagged { missed: 95 }));
    assert_eq!(observer.pop(&ring), Ok(95));
    let mut late = tx.subscribe_anchor(&mut ring).unwrap();
    tx.push(&mut ring, 100);
    assert_eq!(late.pop(&mut ring), Ok(100));
    assert_eq!(observer.skip_to_latest(&ring), 5);
    assert_eq!(observer.capacity(), 8);
}

#[test]
fn anchored_claims_and_borrows() {
    let (mut ring, mut tx, mut anchor) =
        RingBuffer::<u32, YieldWait, YieldWait>::with_wait_strategies(2);
    let slot = tx.claim(&ring);
    slot.commit(&mut tx, &mut ring, 1);
    let slot = tx.try_claim(&ring).unwrap();
    slot.commit(&mut tx, &mut ring, 2);
    assert!(tx.try_claim(&ring).is_none());
    assert!(tx.is_full());
    assert_eq!(tx.len(), 2);
    assert_eq!(anchor.len(&ring), 2);
    let borrow = anchor.pop_ref(&ring).unwrap();
    assert_eq!(*borrow.get(&anchor, &ring), 1);
    borrow.release(&mut anchor, &mut ring);
    let borrow = anchor.try_pop_ref(&ring).unwrap().unwrap();
    assert_eq!(*borrow.get(&anchor, &ring), 2);
    borrow.release(&mut anchor, &mut ring);
    assert!(anchor.try_pop_ref(&ring).unwrap().is_none());
    assert!(anchor.is_empty(&ring));
    assert_eq!(anchor.capacity(), 2);
    assert_eq!(tx.capacity(), 2);
}

#[test]
fn both_kinds_see_the_end() {
    let (mut ring, mut tx, mut anchor) = RingBuffer::<u32>::new(4);
    let mut observer = anchor.subscribe_observer(&ring);
    let second = anchor.subscribe_anchor(&mut ring).unwrap();
    tx.push(&mut ring, 1);
    second.detach(&mut ring);
    assert!(!tx.is_empty() || tx.len() == 0);
    tx.close(&mut ring);
    assert!(anchor.ready(&ring));
    assert!(observer.ready(&ring));
    assert_eq!(drain(&mut anchor, &mut ring), vec![1]);
    assert_eq!(anchor.pop(&mut ring), Err(Closed));
    assert!(anchor.pop_ref(&ring).is_err());
    assert_eq!(observer.pop(&ring), Ok(1));
    assert_eq!(observer.pop(&ring), Err(PopError::Closed));
    assert_eq!(observer.subscribe_observer(&ring).pop(&ring), Err(PopError::Closed));
    assert_eq!(anchor.subscribe_anchor(&mut ring).err(), Some(SubscribeError::Closed));
}

#[test]
fn a_drained_batch_is_bounded() {
    let (mut ring, mut tx, mut anchor) = RingBuffer::<u32>::new(32);
    for i in 0..10 {
        tx.push(&mut ring, i);
    }
    assert_eq!(drain(&mut anchor, &mut ring), vec![0, 1, 2, 3]);
    assert_eq!(drain(&mut anchor, &mut ring), vec![4, 5, 6, 7]);
    assert_eq!(drain(&mut anchor, &mut ring), vec![8, 9]);
    assert_eq!(drain(&mut anchor, &mut ring), Vec::<u32>::new());
}

#[test]
fn anchored_bytes_reach_both_kinds() {
    let (mut ring, mut tx, mut anchor) = BytesRingBuffer::new(256);
    let mut observer = tx.subscribe_observer(&ring);
    for i in 0..200usize {
        let msg: Vec<u8> = (0..(i * 5) % 33).map(|b| (b ^ i) as u8).collect();
        tx.push(&mut ring, &msg);
        let taken = anchor.pop(&ring).unwrap();
        assert_eq!(taken.bytes(&anchor, &ring), &msg[..]);
        taken.release(&mut anchor, &mut ring);
        assert_eq!(observer.pop(&ring), Ok(msg));
    }
    assert!(anchor.is_empty(&ring));
    assert_eq!(anchor.max_message_len(), 32);
    assert_eq!(tx.max_message_len(), 32);
    assert_eq!(observer.max_message_len(), 32);
    assert_eq!((anchor.capacity(), tx.capacity(), observer.capacity()), (256, 256, 256));
    assert_eq!(anchor.shm_slot(), None);
    assert_eq!(anchor.shm_slot_epoch(), None);
}

#[test]
fn a_slow_anchor_starves_the_producer() {
    let (mut ring, mut tx, mut anchor) = BytesRingBuffer::new(64);
    let mut pushed = 0;
    while tx.try_push(&mut ring, b"12345678") {
        pushed += 1;
    }
    assert_eq!(pushed, 4);
    assert_eq!(ring.starving, 16);
    assert!(tx.raised_starving);
    let msg = anchor.pop(&ring).unwrap();
    msg.release(&mut anchor, &mut ring);
    assert_eq!(anchor.core.published, 16);
    assert!(tx.try_push(&mut ring, b"abcdefgh"));
    assert_eq!(ring.starving, 16);
    let msg = anchor.pop(&ring).unwrap();
    msg.release(&mut anchor, &mut ring);
    let msg = anchor.pop(&ring).unwrap();
    msg.release(&mut anchor, &mut ring);
    assert!(tx.try_push(&mut ring, b"abcdefgh"));
    assert!(tx.try_push(&mut ring, b""));
    assert_eq!(ring.starving, 0);
    assert!(!tx.is_empty());
}

#[test]
fn frames_are_claimed_and_committed() {
    let (mut ring, mut tx, mut anchor) = BytesRingBuffer::new(64);
    let slot = tx.claim(&mut ring, 3);
    slot.commit(&mut tx, &mut ring, b"abc");
    let slot = tx.try_claim(&mut ring, 8).unwrap();
    slot.commit(&mut tx, &mut ring, b"12345678");
    assert_eq!(tx.tail(), 24);
    assert_eq!(drain_bytes(&mut anchor, &mut ring), vec![b"abc".to_vec()]);
    assert_eq!(drain_bytes(&mut anchor, &mut ring), vec![b"12345678".to_vec()]);
    assert_eq!(drain_bytes(&mut anchor, &mut ring), Vec::<Vec<u8>>::new());
    let _ = tx.has_space(&mut ring, 16);
    for _ in 0..5 {
        assert!(tx.try_push(&mut ring, b"x"));
    }
    assert_eq!(drain_bytes(&mut anchor, &mut ring), vec![b"x".to_vec()]);
}

#[test]
fn padding_is_skipped_by_both_kinds() {
    let (mut ring, mut tx, mut anchor) = BytesRingBuffer::new(64);
    let mut observer = anchor.subscribe_observer(&ring);
    for _ in 0..7 {
        tx.push(&mut ring, b"z");
        let m = anchor.pop(&ring).unwrap();
        m.release(&mut anchor, &mut ring);
        assert_eq!(observer.pop(&ring), Ok(b"z".to_vec()));
    }
    assert_eq!(tx.tail(), 56);
    tx.push(&mut ring, b"12345678");
    assert_eq!(tx.tail(), 80);
    let m = anchor.pop(&ring).unwrap();
    assert_eq!(m.bytes(&anchor, &ring), b"12345678");
    assert_eq!(anchor.core.read_cursor, 64);
    m.release(&mut anchor, &mut ring);
    assert_eq!(anchor.core.read_cursor, 80);
    let mut out = Vec::new();
    assert_eq!(observer.try_pop_into(&ring, &mut out), Ok(true));
    assert_eq!(out, b"12345678");
}

#[test]
fn byte_observers_are_overrun_and_recover() {
    let (mut ring, mut tx, anchor) = BytesRingBuffer::<YieldWait, YieldWait>::with_wait_strategies(16);
    anchor.detach(&mut ring);
    assert_eq!(tx.anchor_count(&ring), 0);
    let mut observer = tx.subscribe_observer(&ring);
    for i in 0..10u8 {
        assert!(tx.try_push(&mut ring, &[i]));
    }
    assert_eq!(observer.lag(&ring), 80);
    assert_eq!(
        observer.try_pop(&ring),
        Err(broadcast_bytes::PopError::Lagged { missed_bytes: 72 })
    );
    assert_eq!(observer.try_pop(&ring), Ok(Some(vec![9])));
    assert_eq!(observer.try_pop(&ring), Ok(None));
    assert_eq!(observer.skip_to_latest(&ring), 0);
    let mut anchor = tx.subscribe_anchor(&mut ring).unwrap();
    tx.push(&mut ring, b"q");
    tx.close(&mut ring);
    assert!(anchor.ready(&ring));
    let m = anchor.try_pop(&ring).unwrap().unwrap();
    m.release(&mut anchor, &mut ring);
    assert!(anchor.try_pop(&ring).is_err());
    assert!(anchor.pop(&ring).is_err());
    assert_eq!(anchor.subscribe_anchor(&mut ring).err(), Some(SubscribeError::Closed));
    let mut out = vec![3];
    assert!(observer.ready(&ring));
    assert_eq!(observer.pop_into(&ring, &mut out), Ok(()));
    assert_eq!(out, b"q");
    assert_eq!(observer.pop_into(&ring, &mut out), Err(broadcast_bytes::PopError::Closed));
    assert!(out.is_empty());
    assert_eq!(
        observer.subscribe_observer(&ring).pop(&ring),
        Err(broadcast_bytes::PopError::Closed)
    );
}
