//! Promises that span calls, on concrete values.

use std::mem::ManuallyDrop;

use rust_rb::region::{anch_region_len, spmc_region_len, ANCH_BYTES_TABLE_OFFSET};
use rust_rb::shm_dense::dense_geometry;
use rust_rb::bytelog::{accept_record, ByteReader, Frontier, Glimpse};
use rust_rb::{anchored, anchored_bytes, broadcast, broadcast_bytes, spmc};

#[test]
fn slack_messages_of_headroom() {
    let (mut ring, mut tx, mut rx) =
        broadcast::RingBuffer::<u64>::with_slack::<rust_rb::YieldWait>(8, 2);
    for i in 0..20 {
        tx.push(&mut ring, i);
    }
    assert_eq!(rx.try_pop(&ring), Err(broadcast::PopError::Lagged { missed: 14 }));
    assert_eq!(rx.lag(&ring), 6);
    tx.push(&mut ring, 20);
    tx.push(&mut ring, 21);
    assert_eq!(rx.try_pop(&ring), Ok(Some(14)));
    tx.push(&mut ring, 22);
    tx.push(&mut ring, 23);
    assert_eq!(rx.try_pop(&ring), Err(broadcast::PopError::Lagged { missed: 3 }));
}

#[test]
fn a_batched_tail_can_report_no_loss() {
    let (mut ring, mut tx, mut rx) =
        broadcast::RingBuffer::<u64>::with_slack::<rust_rb::YieldWait>(16, 0);
    assert_eq!(tx.set_tail_batch(&mut ring, 9), 2);
    for i in 0..17 {
        tx.push(&mut ring, i);
    }
    assert_eq!(ring.tail, 16);
    assert_eq!(rx.try_pop(&ring), Err(broadcast::PopError::Lagged { missed: 0 }));
    tx.flush(&mut ring);
    assert_eq!(rx.try_pop(&ring), Err(broadcast::PopError::Lagged { missed: 1 }));
    assert_eq!(rx.try_pop(&ring), Ok(Some(1)));
}

#[test]
fn producers_never_undercount_and_consumers_defer_little() {
    let (mut ring, mut tx, mut rx) = spmc::RingBuffer::<u64>::new(64);
    for round in 0..200u64 {
        for i in 0..40 {
            tx.push(&mut ring, round * 40 + i);
            assert!(tx.len() >= rx.len(&ring));
        }
        for i in 0..40 {
            assert_eq!(rx.pop(&mut ring), Ok(round * 40 + i));
            assert!(rx.core.read_cursor - rx.core.published < 8);
        }
        assert!(tx.has_space(&ring));
    }
}

#[test]
fn a_claim_that_is_let_go_publishes_nothing() {
    let (mut ring, mut tx, mut rx) = spmc::RingBuffer::<u64>::new(4);
    tx.push(&mut ring, 1);
    let mut slot = tx.claim(&mut ring);
    *slot.uninit(&tx, &mut ring) = Some(ManuallyDrop::new(99));
    assert_eq!(rx.len(&ring), 1);
    assert_eq!(rx.try_pop(&mut ring), Ok(Some(1)));
    assert_eq!(rx.try_pop(&mut ring), Ok(None));
    let mut slot = tx.claim(&mut ring);
    *slot.uninit(&tx, &mut ring) = Some(ManuallyDrop::new(2));
    slot.commit_init(&mut tx, &mut ring);
    assert_eq!(rx.try_pop(&mut ring), Ok(Some(2)));
}

#[test]
fn a_torn_write_leaves_a_region_drainable() {
    let len = spmc_region_len(4, 8, 1).unwrap();
    let mut region = vec![0u64; (len + 7) / 8];
    let handles = spmc::RingBuffer::<u64>::create_shm(&mut region, 4, 1, 9, 10, 1).unwrap();
    let d = dense_geometry(8, 4, 384, 1);
    let mut tx = spmc::Producer { core: handles.producer };
    let mut rx = spmc::Consumer { core: handles.consumer };
    let side = handles.producer_side;
    for i in 0..3u64 {
        assert!(tx.try_push_shm(&mut region, &side, &d, &i.to_le_bytes()));
    }
    region[d.base + 3] = 0x00ff_00ff;
    let (core, side, _) = spmc::RingBuffer::<u64>::force_attach_shm_producer(
        &mut region,
        len as u64,
        11,
        2,
    )
    .unwrap();
    let mut next = spmc::Producer { core };
    assert!(next.try_push_shm(&mut region, &side, &d, &3u64.to_le_bytes()));
    for i in 0..4u64 {
        assert_eq!(
            rx.try_pop_shm(&mut region, &handles.consumer_side, &d),
            Ok(Some(i.to_le_bytes().to_vec()))
        );
    }
}

#[test]
fn a_torn_frame_leaves_a_region_drainable() {
    let len = anch_region_len(64, 1, ANCH_BYTES_TABLE_OFFSET, 1).unwrap();
    let base = 64 + 16;
    let mut region = vec![0u64; len / 8];
    let handles =
        anchored_bytes::BytesRingBuffer::create_shm(&mut region, 64, 1, 9, 10, 1).unwrap();
    let mut tx = anchored_bytes::BytesProducer {
        core: handles.producer,
        raised_starving: false,
        intent_floor: 0,
    };
    let mut anchor = anchored_bytes::BytesAnchor {
        core: handles.consumer,
        shm: Some((handles.consumer_side.slot(), handles.consumer_side.epoch())),
    };
    assert!(tx.try_push_shm(&mut region, &handles.producer_side, base, b"kept"));
    let tail = tx.tail();
    region[32] = tail + 16;
    region[base + 1] = 0xffff_ffff_0000_0007;
    let (core, side, floor) = anchored_bytes::BytesRingBuffer::force_attach_shm_producer(
        &mut region,
        len as u64,
        11,
        2,
    )
    .unwrap();
    assert_eq!(floor, tail + 16);
    let mut next =
        anchored_bytes::BytesProducer { core, raised_starving: false, intent_floor: floor };
    assert_eq!(
        anchor.try_pop_shm(&mut region, &handles.consumer_side, base),
        Ok(Some(b"kept".to_vec()))
    );
    assert_eq!(anchor.try_pop_shm(&mut region, &handles.consumer_side, base), Ok(None));
    assert!(next.try_push_shm(&mut region, &side, base, b"again"));
    assert_eq!(
        anchor.try_pop_shm(&mut region, &handles.consumer_side, base),
        Ok(Some(b"again".to_vec()))
    );
}

#[test]
fn a_waiting_producer_leaves_observers_their_messages() {
    let (mut ring, mut tx, _anchor) = anchored_bytes::BytesRingBuffer::new(64);
    let mut observer = tx.subscribe_observer(&ring);
    let mut sent = 0;
    while tx.try_push(&mut ring, &[sent; 8]) {
        sent += 1;
    }
    assert_ne!(ring.starving, 0);
    assert_eq!(ring.tail_intent, ring.gate.tail);
    for i in 0..sent {
        assert!(!tx.try_push(&mut ring, &[sent; 8]));
        assert_eq!(observer.try_pop(&ring), Ok(Some(vec![i; 8])));
    }
    assert_eq!(observer.try_pop(&ring), Ok(None));
}

#[test]
fn looks_at_a_frame() {
    let ok = Glimpse { before: 64, header: 5, after: 64 };
    let none = Glimpse { before: 0, header: 0, after: 0 };
    assert_eq!(accept_record(0, 64, ok, none, 64), Some((0, 5)));
    assert_eq!(accept_record(0, 64, ok, none, 65), None);
    assert_eq!(accept_record(0, 64, Glimpse { before: 65, ..ok }, none, 64), None);
    assert_eq!(accept_record(0, 64, Glimpse { after: 65, ..ok }, none, 64), Some((0, 5)));
    assert_eq!(accept_record(0, 64, Glimpse { header: 9, ..ok }, none, 64), None);
    assert_eq!(accept_record(56, 64, Glimpse { header: 5, ..ok }, none, 64), None);
    assert_eq!(accept_record(56, 64, Glimpse { header: 4, ..ok }, none, 64), Some((56, 4)));
    let pad = Glimpse { before: 72, header: u32::MAX, after: 72 };
    let record = Glimpse { before: 72, header: 8, after: 72 };
    assert_eq!(accept_record(56, 64, pad, record, 80), Some((64, 8)));
    assert_eq!(accept_record(56, 64, pad, record, 121), None);
    assert_eq!(accept_record(56, 64, Glimpse { after: 121, ..pad }, record, 80), None);
    assert_eq!(accept_record(56, 64, pad, Glimpse { before: 121, ..record }, 80), None);
    assert_eq!(accept_record(56, 64, pad, pad, 80), None);
    assert_eq!(accept_record(56, 64, pad, Glimpse { header: 9, ..record }, 80), None);
}

#[test]
fn a_torn_length_counts_as_overrun() {
    let mut buf = vec![0u8; 64];
    buf[0] = 200;
    let f = Frontier { tail: 32, intent: 32, latest: 16 };
    let mut reader = ByteReader { mask: 63, pos: 0, tail_cache: 32 };
    let mut out = vec![7];
    assert_eq!(reader.read_record(&buf, f, &mut out), Err(16));
    assert_eq!((reader.pos, out.len()), (16, 1));
    assert_eq!(reader.read_record(&buf, f, &mut out), Ok(()));
    assert_eq!((reader.pos, out.len()), (24, 0));
}

#[test]
fn a_batched_tail_hides_less_than_a_batch() {
    for b in 1..=8usize {
        for n in 0..64u64 {
            let (mut ring, mut tx, mut rx) = broadcast::RingBuffer::<u64>::new(64);
            assert_eq!(tx.set_tail_batch(&mut ring, b), b);
            for i in 0..n {
                tx.push(&mut ring, i);
            }
            assert_eq!(tx.tail(), n);
            assert_eq!(rx.lag(&ring), n - n % b as u64);
            if n % 2 == 0 {
                tx.flush(&mut ring);
                assert_eq!(rx.lag(&ring), n);
            }
            tx.close(&mut ring);
            for i in 0..n {
                assert_eq!(rx.pop(&ring), Ok(i));
            }
            assert_eq!(rx.pop(&ring), Err(broadcast::PopError::Closed));
        }
    }
}

#[test]
fn claiming_and_committing_is_pushing() {
    let (mut a, mut ta, mut ra) = spmc::RingBuffer::<u64>::new(4);
    let (mut b, mut tb, mut rb) = spmc::RingBuffer::<u64>::new(4);
    let (mut c, mut tc, mut rc) = anchored::RingBuffer::<u64>::new(4);
    let (mut d, mut td, mut rd) = anchored_bytes::BytesRingBuffer::new(64);
    let (mut e, mut te, mut re) = anchored_bytes::BytesRingBuffer::new(64);
    for i in 0..40u64 {
        let full = ta.try_push(&mut a, i).is_err();
        let slot = tb.try_claim(&mut b);
        assert_eq!(slot.is_none(), full);
        if let Some(slot) = slot {
            let again = tb.try_claim(&mut b);
            assert!(again.is_some());
            slot.commit(&mut tb, &mut b, i);
        }
        let slot = tc.try_claim(&c);
        assert_eq!(slot.is_none(), full);
        if let Some(slot) = slot {
            slot.commit(&mut tc, &mut c, i);
        }
        let msg = vec![i as u8; (i % 9) as usize];
        let pushed = td.try_push(&mut d, &msg);
        let slot = te.try_claim(&mut e, msg.len());
        assert_eq!(slot.is_some(), pushed);
        if let Some(slot) = slot {
            slot.commit(&mut te, &mut e, &msg);
        }
        assert_eq!((&d.buf, d.gate.tail, d.latest, d.starving), (&e.buf, e.gate.tail, e.latest, e.starving));
        assert_eq!((a.gate.tail, a.dropped_through), (b.gate.tail, b.dropped_through));
        assert_eq!(ta.is_full(), ta.len() == ta.capacity());
        if i % 3 == 2 {
            let v = ra.pop(&mut a);
            assert_eq!(rb.pop(&mut b), v);
            assert_eq!(rc.pop(&mut c), v);
            let (x, y) = (rd.pop(&d).unwrap(), re.pop(&e).unwrap());
            assert_eq!(x.bytes(&rd, &d), y.bytes(&re, &e));
            x.release(&mut rd, &mut d);
            y.release(&mut re, &mut e);
        }
    }
}

#[test]
fn the_longest_messages_come_back() {
    for capacity in [64usize, 256, 4096] {
        let (mut ring, mut tx, mut rx) = broadcast_bytes::BytesRingBuffer::new(capacity);
        assert_eq!(tx.max_message_len(), capacity / 8);
        let (mut other, mut producer, mut anchor) = anchored_bytes::BytesRingBuffer::new(capacity);
        let mut observer = producer.subscribe_observer(&other);
        for i in 0..20 {
            let msg = vec![i as u8; capacity / 8];
            tx.push(&mut ring, &msg);
            assert_eq!(rx.pop(&ring), Ok(msg.clone()));
            assert!(producer.try_push(&mut other, &msg));
            assert_eq!(observer.pop(&other), Ok(msg.clone()));
            let m = anchor.pop(&other).unwrap();
            assert_eq!(m.bytes(&anchor, &other), &msg[..]);
            m.release(&mut anchor, &mut other);
        }
    }
}
