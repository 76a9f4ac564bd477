//! Claims, borrows, batches and skips over regions in ordinary memory.

use std::cell::RefCell;

use rust_rb::anchored;
use rust_rb::anchored_bytes;
use rust_rb::broadcast;
use rust_rb::broadcast_bytes;
use rust_rb::gate::{hand_over, GateConsumer};
use rust_rb::gate_shm::{is_sound, GateShmConsumer};
use rust_rb::region::{
    anch_region_len, bcast_region_len, spmc_region_len, ANCH_BYTES_TABLE_OFFSET,
    ANCH_ELEMS_TABLE_OFFSET, BCAST_BYTES_BUFFER_OFFSET, BUFFER_OFFSET, SPMC_TABLE_OFFSET,
};
use rust_rb::registry::SlotId;
use rust_rb::shm::elem_type;
use rust_rb::shm_bytes::is_framed;
use rust_rb::shm_dense::{dense_geometry, DenseGeometry};
use rust_rb::shm_gating::GateHandles;
use rust_rb::shm_slots::slot_geometry;
use rust_rb::spmc;

fn words(len: usize) -> Vec<u64> {
    vec![0xdead_beef_dead_beef; (len + 7) / 8]
}

fn gating(capacity: usize) -> (Vec<u64>, u64, GateHandles, DenseGeometry) {
    let len = spmc_region_len(capacity, 4, 2).unwrap();
    let mut region = words(len);
    let handles =
        spmc::RingBuffer::<u32>::create_shm(&mut region, capacity, 2, 5, 6, 1).unwrap();
    (region, len as u64, handles, dense_geometry(4, capacity, SPMC_TABLE_OFFSET, 2))
}

#[test]
fn a_place_of_a_region_is_claimed_and_committed() {
    let (mut region, _, h, d) = gating(4);
    let mut tx = spmc::Producer { core: h.producer };
    let mut rx = spmc::Consumer { core: h.consumer };
    let before = region.clone();
    assert!(tx.try_claim_shm(&region, &h.producer_side, &d).is_some());
    assert_eq!(region, before);
    assert_eq!(rx.try_pop_shm(&mut region, &h.consumer_side, &d), Ok(None));
    for i in 0..4u8 {
        let slot = tx.try_claim_shm(&region, &h.producer_side, &d).unwrap();
        assert_eq!(slot.seq, i as u64);
        slot.commit_shm(&mut tx, &mut region, &h.producer_side, &d, &[i, 1, 2, 3]);
    }
    assert!(tx.try_claim_shm(&region, &h.producer_side, &d).is_none());
    assert_eq!(rx.try_pop_shm(&mut region, &h.consumer_side, &d), Ok(Some(vec![0, 1, 2, 3])));
    let slot = tx.try_claim_shm(&region, &h.producer_side, &d).unwrap();
    slot.fill_shm(&tx, &mut region, &h.producer_side, &d, &[9, 9, 9, 9]);
    slot.fill_shm(&tx, &mut region, &h.producer_side, &d, &[4, 1, 2, 3]);
    assert_eq!(rx.len_shm(&region, &h.consumer_side, &d), 3);
    slot.commit_init_shm(&mut tx, &mut region, &h.producer_side, &d);
    assert_eq!(rx.len_shm(&region, &h.consumer_side, &d), 4);
    for i in 1..5u8 {
        assert_eq!(rx.try_pop_shm(&mut region, &h.consumer_side, &d), Ok(Some(vec![i, 1, 2, 3])));
    }
}

#[test]
fn an_element_of_a_region_is_borrowed() {
    let (mut region, _, h, d) = gating(4);
    let mut tx = spmc::Producer { core: h.producer };
    let mut rx = spmc::Consumer { core: h.consumer };
    let side = h.consumer_side;
    assert_eq!(rx.try_pop_ref_shm(&region, &side, &d).map(|b| b.is_some()), Ok(false));
    assert!(tx.try_push_shm(&mut region, &h.producer_side, &d, &[7, 0, 0, 0]));
    assert!(tx.try_push_shm(&mut region, &h.producer_side, &d, &[8, 0, 0, 0]));
    for expected in [7u8, 8] {
        let borrow = rx.try_pop_ref_shm(&region, &side, &d).unwrap().unwrap();
        assert_eq!(borrow.get_shm(&rx, &region, &side, &d), [expected, 0, 0, 0]);
        assert_eq!(rx.try_pop_ref_shm(&region, &side, &d).unwrap().unwrap().seq, borrow.seq);
        borrow.release_shm(&mut rx, &mut region, &side, &d);
    }
    h.producer_side.teardown(&mut region, 1);
    assert_eq!(rx.try_pop_ref_shm(&region, &side, &d).map(|b| b.is_some()), Err(spmc::Closed));
}

#[test]
fn a_region_is_drained_in_batches() {
    let (mut region, _, h, d) = gating(64);
    let mut tx = spmc::Producer { core: h.producer };
    let mut rx = spmc::Consumer { core: h.consumer };
    let seen = RefCell::new(Vec::new());
    let take = |m: &[u8]| seen.borrow_mut().push(m[0]);
    assert_eq!(rx.drain_shm(&mut region, &h.consumer_side, &d, take), 0);
    for i in 0..11u8 {
        assert!(tx.try_push_shm(&mut region, &h.producer_side, &d, &[i, 0, 0, 0]));
    }
    assert_eq!(rx.drain_shm(&mut region, &h.consumer_side, &d, take), 8);
    assert_eq!(region[SPMC_TABLE_OFFSET / 8 + 2], 8);
    assert_eq!(rx.drain_shm(&mut region, &h.consumer_side, &d, take), 3);
    assert_eq!(region[SPMC_TABLE_OFFSET / 8 + 2], 11);
    assert_eq!(rx.drain_shm(&mut region, &h.consumer_side, &d, take), 0);
    assert_eq!(*seen.borrow(), (0..11).collect::<Vec<u8>>());
}

#[test]
fn a_consumer_without_its_lease_stores_nothing() {
    let (mut region, _, h, d) = gating(4);
    let mut tx = spmc::Producer { core: h.producer };
    let mut rx = spmc::Consumer { core: h.consumer };
    let side = h.consumer_side;
    for i in 0..4u8 {
        assert!(tx.try_push_shm(&mut region, &h.producer_side, &d, &[i, 0, 0, 0]));
    }
    let lease = SPMC_TABLE_OFFSET / 8;
    assert_eq!(region[lease], side.claim.token);
    region[lease] = 77;
    let before = region.clone();
    assert_eq!(rx.try_pop_shm(&mut region, &side, &d), Ok(Some(vec![0, 0, 0, 0])));
    assert_eq!(rx.core.published, 1);
    let borrow = rx.try_pop_ref_shm(&region, &side, &d).unwrap().unwrap();
    borrow.release_shm(&mut rx, &mut region, &side, &d);
    assert_eq!(rx.drain_shm(&mut region, &side, &d, |_: &[u8]| {}), 1);
    assert_eq!(rx.core.published, 3);
    assert_eq!(region, before);
    assert!(side.place(&mut region).is_none());
    region[lease] = side.claim.token;
    assert_eq!(side.place(&mut region).map(|c| *c), Some(0));
    assert_eq!(rx.try_pop_shm(&mut region, &side, &d), Ok(Some(vec![3, 0, 0, 0])));
    assert_eq!(region[lease + 2], 4);
}

#[test]
fn a_recovered_ring_hands_everything_out_again() {
    type Ring = spmc::RingBuffer<u32>;
    let (mut region, len, h, d) = gating(8);
    let mut tx = spmc::Producer { core: h.producer };
    let mut rx = spmc::Consumer { core: h.consumer };
    for i in 0..5u8 {
        assert!(tx.try_push_shm(&mut region, &h.producer_side, &d, &[i, 0, 0, 0]));
    }
    assert_eq!(rx.drain_shm(&mut region, &h.consumer_side, &d, |_: &[u8]| {}), 1);
    let (late, _) = Ring::attach_shm_consumer(&mut region, len, 70, 2).unwrap();
    assert_eq!(late.read_cursor, 5);
    let (new, _) = Ring::recover_shm(&mut region, len, 80, 81, 3).unwrap();
    assert!(new.consumer_side.owns_slot(&region));
    assert!(!h.consumer_side.owns_slot(&region));
    assert_eq!((new.consumer.read_cursor, new.producer.next_seq), (1, 5));
    let mut tx = spmc::Producer { core: new.producer };
    let mut rx = spmc::Consumer { core: new.consumer };
    for i in 5..9u8 {
        assert!(tx.try_push_shm(&mut region, &new.producer_side, &d, &[i, 0, 0, 0]));
    }
    assert!(!tx.try_push_shm(&mut region, &new.producer_side, &d, &[9, 0, 0, 0]));
    for i in 1..9u8 {
        assert_eq!(
            rx.try_pop_shm(&mut region, &new.consumer_side, &d),
            Ok(Some(vec![i, 0, 0, 0]))
        );
    }
}

#[test]
fn anchored_elements_are_claimed_borrowed_and_drained() {
    type Ring = anchored::RingBuffer<[u64; 2]>;
    let len = anch_region_len(16, 24, ANCH_ELEMS_TABLE_OFFSET, 1).unwrap();
    let mut region = words(len);
    let h = Ring::create_shm(&mut region, 16, 1, 9, 10, 1).unwrap();
    let g = slot_geometry(elem_type::<[u64; 2]>(), 16, ANCH_ELEMS_TABLE_OFFSET + 128).unwrap();
    let mut tx = anchored::Producer { core: h.producer };
    let mut rx = anchored::Anchor { core: h.consumer };
    let mut observer = Ring::attach_shm_observer(&region, len as u64).unwrap();
    let side = h.consumer_side;
    for i in 0..6 {
        let slot = tx.try_claim_shm(&region, &h.producer_side, &g).unwrap();
        slot.commit_shm(&mut tx, &mut region, &h.producer_side, &g, &[i, i + 50]);
    }
    assert_eq!(rx.len_shm(&region, &side, &g), 6);
    let borrow = rx.try_pop_ref_shm(&region, &side, &g).unwrap().unwrap();
    assert_eq!(borrow.get_shm(&rx, &region, &side, &g), [0, 50]);
    borrow.release_shm(&mut rx, &mut region, &side, &g);
    let seen = RefCell::new(Vec::new());
    let take = |m: &[u64]| seen.borrow_mut().push(m.to_vec());
    assert_eq!(rx.drain_shm(&mut region, &side, &g, take), 2);
    assert_eq!(*seen.borrow(), [vec![1, 51], vec![2, 52]]);
    assert_eq!(region[ANCH_ELEMS_TABLE_OFFSET / 8 + 2], 3);
    assert_eq!(observer.lag_shm(&region), 6);
    assert_eq!(observer.skip_to_latest_shm(&region), 6);
    assert_eq!(observer.skip_to_latest_shm(&region), 0);
    assert_eq!(observer.lag_shm(&region), 0);
    assert!(tx.try_push_shm(&mut region, &h.producer_side, &g, &[6, 56]));
    assert_eq!(observer.try_pop_shm(&region, &g), Ok(Some(vec![6, 56])));
    let mut other = observer.subscribe_shm(&region);
    assert_eq!(other.try_pop_shm(&region, &g), Ok(None));
    region[ANCH_ELEMS_TABLE_OFFSET / 8] = 77;
    let before = region.clone();
    assert_eq!(rx.drain_shm(&mut region, &side, &g, take), 2);
    assert_eq!(rx.try_pop_shm(&mut region, &side, &g), Ok(Some(vec![5, 55])));
    assert_eq!(region, before);
}

#[test]
fn anchored_messages_are_claimed_borrowed_and_drained() {
    type Ring = anchored_bytes::BytesRingBuffer;
    let len = anch_region_len(256, 1, ANCH_BYTES_TABLE_OFFSET, 2).unwrap();
    let base = ANCH_BYTES_TABLE_OFFSET / 8 + 32;
    let mut region = words(len);
    let h = Ring::create_shm(&mut region, 256, 2, 9, 10, 1).unwrap();
    let mut tx = anchored_bytes::BytesProducer {
        core: h.producer,
        raised_starving: false,
        intent_floor: 0,
    };
    let mut rx = anchored_bytes::BytesAnchor { core: h.consumer, shm: None };
    let mut observer = Ring::attach_shm_observer(&region, len as u64).unwrap();
    let side = h.consumer_side;
    let before = region.clone();
    assert!(tx.try_claim_shm(&mut region, &h.producer_side, base, 5).is_some());
    assert_eq!(region, before);
    for i in 0..6u8 {
        let slot = tx.try_claim_shm(&mut region, &h.producer_side, base, 5).unwrap();
        slot.commit_shm(&mut tx, &mut region, &h.producer_side, base, &[i, 1, 2, 3, 4]);
    }
    let borrow = rx.try_pop_ref_shm(&region, &side, base).unwrap().unwrap();
    assert_eq!(borrow.bytes_shm(&rx, &region, &side, base), [0, 1, 2, 3, 4]);
    borrow.release_shm(&mut rx, &mut region, &side, base);
    let seen = RefCell::new(Vec::new());
    let take = |m: &[u8]| seen.borrow_mut().push(m[0]);
    assert_eq!(rx.drain_shm(&mut region, &side, base, take), 2);
    assert_eq!(*seen.borrow(), [1, 2]);
    assert_eq!(region[ANCH_BYTES_TABLE_OFFSET / 8 + 2], 48);
    assert_eq!(observer.lag_shm(&region), 96);
    let other = observer.subscribe_shm(&region, base);
    assert_eq!(other.lag_shm(&region), 0);
    assert_eq!(observer.skip_to_latest_shm(&region, base), 96);
    assert_eq!(observer.skip_to_latest_shm(&region, base), 0);
    assert!(tx.try_push_shm(&mut region, &h.producer_side, base, b"next"));
    let mut out = Vec::new();
    assert_eq!(observer.try_pop_shm(&region, base, &mut out), Ok(true));
    assert_eq!(out, b"next");
    region[ANCH_BYTES_TABLE_OFFSET / 8] = 77;
    let before = region.clone();
    assert_eq!(rx.drain_shm(&mut region, &side, base, take), 2);
    assert_eq!(rx.try_pop_shm(&mut region, &side, base), Ok(Some(vec![5, 1, 2, 3, 4])));
    assert_eq!(rx.try_pop_shm(&mut region, &side, base), Ok(Some(b"next".to_vec())));
    assert_eq!(rx.try_pop_shm(&mut region, &side, base), Ok(None));
    assert_eq!((rx.core.published, region == before), (region[16], true));
}

#[test]
fn a_lossy_region_is_batched_flushed_and_skipped() {
    type Ring = broadcast::RingBuffer<u64>;
    let len = bcast_region_len(64, 16, BUFFER_OFFSET).unwrap();
    let mut region = words(len);
    let (mut tx, _) = Ring::create_shm(&mut region, 64, 3, 1).unwrap();
    let g = slot_geometry(elem_type::<u64>(), 64, BUFFER_OFFSET).unwrap();
    let mut rx = Ring::attach_shm_consumer(&region, len as u64).unwrap();
    assert_eq!(tx.set_tail_batch_shm(&mut region, &g, 100), 8);
    assert_eq!(tx.set_tail_batch_shm(&mut region, &g, 0), 1);
    assert_eq!(tx.set_tail_batch_shm(&mut region, &g, 5), 5);
    for i in 0..13 {
        tx.push_shm(&mut region, &g, &[i]);
    }
    assert_eq!(rx.lag_shm(&region), 10);
    tx.flush_shm(&mut region, &g);
    assert_eq!(rx.lag_shm(&region), 13);
    assert_eq!(rx.skip_to_latest_shm(&region), 13);
    assert_eq!(rx.try_pop_shm(&region, &g), Ok(None));
    tx.push_shm(&mut region, &g, &[13]);
    tx.push_shm(&mut region, &g, &[14]);
    assert_eq!(rx.try_pop_shm(&region, &g), Ok(None));
    assert_eq!(tx.set_tail_batch_shm(&mut region, &g, 2), 2);
    assert_eq!(rx.try_pop_shm(&region, &g), Ok(Some(vec![13])));
}

#[test]
fn lossy_messages_of_a_region_are_skipped() {
    type Ring = broadcast_bytes::BytesRingBuffer;
    let len = bcast_region_len(64, 1, BCAST_BYTES_BUFFER_OFFSET).unwrap();
    let mut region = words(len);
    let (mut tx, _) = Ring::create_shm(&mut region, 64, 3, 1).unwrap();
    let base = BCAST_BYTES_BUFFER_OFFSET / 8;
    let mut rx = Ring::attach_shm_consumer(&region, len as u64).unwrap();
    for _ in 0..9 {
        tx.push_shm(&mut region, base, b"12345678");
    }
    let lag = rx.lag_shm(&region);
    assert_eq!(lag, region[16]);
    assert_eq!(rx.skip_to_latest_shm(&region, base), lag);
    assert_eq!(rx.skip_to_latest_shm(&region, base), 0);
    tx.push_shm(&mut region, base, b"new");
    let mut out = Vec::new();
    assert_eq!(rx.try_pop_shm(&region, base, &mut out), Ok(true));
    assert_eq!(out, b"new");
}

fn reader(read_cursor: u64, published: u64) -> GateConsumer {
    let slot = SlotId { chunk: 0, slot_idx: 0 };
    GateConsumer { mask: 7, slot, read_cursor, published, write_cache: 9 }
}

#[test]
fn a_consumer_settles() {
    let mut place = 2;
    let mut consumer = reader(5, 2);
    consumer.settle(Some(&mut place));
    assert_eq!((consumer.published, consumer.read_cursor, place), (5, 5, 5));
    place = 1;
    consumer.settle(Some(&mut place));
    assert_eq!(place, 1);
    let mut consumer = reader(5, 2);
    consumer.settle(None);
    assert_eq!(consumer.published, 5);
    let mut consumer = reader(u64::MAX, 2);
    consumer.settle(Some(&mut place));
    assert_eq!(place, u64::MAX - 1);
}

#[test]
fn a_message_that_came_back_publishes_nothing() {
    let mut place = 2;
    let mut consumer = reader(5, 2);
    let seen = RefCell::new(Vec::new());
    let mut take = |m: &u32| seen.borrow_mut().push(*m);
    hand_over(&mut consumer, Some(&mut place), &mut take, &11);
    hand_over(&mut consumer, None, &mut take, &12);
    assert_eq!(*seen.borrow(), [11, 12]);
    assert_eq!((consumer.published, place), (2, 2));
}

#[test]
fn a_skip_is_exact() {
    let (mut ring, mut tx, mut rx) = broadcast::RingBuffer::<u64>::new(8);
    for i in 0..20 {
        tx.push(&mut ring, i);
    }
    assert_eq!(rx.lag(&ring), 20);
    assert_eq!(rx.skip_to_latest(&ring), 20);
    assert_eq!((rx.lag(&ring), rx.skip_to_latest(&ring)), (0, 0));
    assert_eq!(rx.try_pop(&ring), Ok(None));
    tx.push(&mut ring, 20);
    tx.push(&mut ring, 21);
    assert_eq!(rx.try_pop(&ring), Ok(Some(20)));
    assert_eq!(rx.skip_to_latest(&ring), 1);
    for i in 22..40 {
        tx.push(&mut ring, i);
    }
    match rx.try_pop(&ring) {
        Err(broadcast::PopError::Lagged { missed }) => assert_eq!(rx.lag(&ring), 18 - missed),
        _ => panic!("lapped"),
    }
}

#[test]
fn a_slot_tells_where_its_cursor_stands() {
    let (mut region, _, h, _) = gating(4);
    let side: GateShmConsumer = h.consumer_side;
    *side.place(&mut region).unwrap() = 3;
    assert_eq!(region[SPMC_TABLE_OFFSET / 8 + 2], 3);
}

#[test]
fn a_table_out_of_order_is_noticed() {
    let (mut region, _, h, d) = gating(4);
    let sound = |region: &[u64]| is_sound(region, SPMC_TABLE_OFFSET, 2, 4);
    assert!(sound(&region));
    let cursor = SPMC_TABLE_OFFSET / 8 + 2;
    region[cursor] = 1;
    assert!(!sound(&region));
    region[cursor] = u64::MAX;
    assert!(sound(&region));
    region[cursor] = 0;
    region[16] = 4;
    assert!(sound(&region));
    assert!(h.consumer.is_placed_shm(&region, &h.consumer_side));
    region[16] = 5;
    assert!(!sound(&region));
    let rx = spmc::Consumer { core: h.consumer };
    assert_eq!(rx.len_shm(&region, &h.consumer_side, &d), 5);
    region[16] = u64::MAX;
    assert!(!rx.core.is_placed_shm(&region, &h.consumer_side));
    assert!(!sound(&region));
}

#[test]
fn frames_out_of_order_are_noticed() {
    type Ring = anchored_bytes::BytesRingBuffer;
    let len = anch_region_len(64, 1, ANCH_BYTES_TABLE_OFFSET, 1).unwrap();
    let base = ANCH_BYTES_TABLE_OFFSET / 8 + 16;
    let mut region = words(len);
    let h = Ring::create_shm(&mut region, 64, 1, 9, 10, 1).unwrap();
    let mut tx = anchored_bytes::BytesProducer {
        core: h.producer,
        raised_starving: false,
        intent_floor: 0,
    };
    let rx = anchored_bytes::BytesAnchor { core: h.consumer, shm: None };
    assert!(tx.try_push_shm(&mut region, &h.producer_side, base, b"abc"));
    assert!(tx.try_push_shm(&mut region, &h.producer_side, base, b"12345678"));
    assert_eq!(region[16], 24);
    assert!(is_framed(&region, base, 63, 0, 24));
    assert!(is_framed(&region, base, 63, 8, 24));
    assert!(!is_framed(&region, base, 63, 0, 16));
    assert!(!is_framed(&region, base, 63, 4, 24));
    assert!(rx.is_placed_shm(&region, &h.consumer_side, base));
    region[18] = 64;
    assert!(!rx.is_placed_shm(&region, &h.consumer_side, base));
    region[18] = 0;
    region[base] = 9;
    assert!(!rx.is_placed_shm(&region, &h.consumer_side, base));
}
