//! What consumers are handed over longer runs.

use rust_rb::{anchored, anchored_bytes, broadcast, broadcast_bytes, spmc};

/// A small generator of steps.
struct Steps(u64);

impl Steps {
    fn next(&mut self, n: u64) -> u64 {
        self.0 = self.0.wrapping_mul(6364136223846793005).wrapping_add(1442695040888963407);
        (self.0 >> 33) % n
    }
}

#[test]
fn a_gating_ring_loses_nothing() {
    let mut steps = Steps(1);
    let (mut ring, mut tx, mut a) = spmc::RingBuffer::<u64>::new(8);
    let mut b = tx.subscribe(&mut ring).unwrap();
    let mut sent = Vec::new();
    let (mut got_a, mut got_b) = (Vec::new(), Vec::new());
    let mut next = 0;
    for _ in 0..2000 {
        match steps.next(5) {
            0 | 1 => {
                if tx.try_push(&mut ring, next).is_ok() {
                    sent.push(next);
                    next += 1;
                }
            }
            2 => got_a.extend(a.try_pop(&mut ring).unwrap()),
            3 => {
                b.drain(&mut ring, |v: &u64| got_b.push(*v));
            }
            _ => {
                if let Some(slot) = tx.try_claim(&mut ring) {
                    slot.commit(&mut tx, &mut ring, next);
                    sent.push(next);
                    next += 1;
                }
            }
        }
        assert_eq!(got_a.len() + a.len(&ring), sent.len());
        assert!(sent.starts_with(&got_a) && sent.starts_with(&got_b));
    }
    tx.close(&mut ring);
    while let Ok(Some(v)) = a.try_pop(&mut ring) {
        got_a.push(v);
    }
    while let Ok(Some(v)) = b.try_pop(&mut ring) {
        got_b.push(v);
    }
    assert_eq!(got_a, sent);
    assert_eq!(got_b, sent);
}

#[test]
fn anchors_lose_nothing_and_observers_count_their_losses() {
    let mut steps = Steps(2);
    let (mut ring, mut tx, mut anchor) = anchored::RingBuffer::<u64>::new(16);
    let mut observer = tx.subscribe_observer(&ring);
    let (mut sent, mut got) = (0u64, 0u64);
    let mut accounted = 0;
    for _ in 0..3000 {
        match steps.next(7) {
            0..=2 => {
                if tx.try_push(&mut ring, sent).is_ok() {
                    sent += 1;
                }
            }
            3..=5 => {
                if let Ok(Some(v)) = anchor.try_pop(&mut ring) {
                    assert_eq!(v, got);
                    got += 1;
                }
            }
            _ => match observer.try_pop(&ring) {
                Ok(Some(v)) => {
                    assert_eq!(v, accounted);
                    accounted += 1;
                }
                Ok(None) => assert_eq!(accounted, sent),
                Err(anchored::PopError::Lagged { missed }) => {
                    assert!(missed > 0);
                    accounted += missed;
                }
                Err(e) => panic!("{e:?}"),
            },
        }
        assert_eq!(accounted + observer.lag(&ring), sent);
        assert_eq!(got + anchor.len(&ring) as u64, sent);
    }
}

#[test]
fn byte_anchors_lose_nothing_and_byte_observers_count_their_losses() {
    let mut steps = Steps(3);
    let (mut ring, mut tx, mut anchor) = anchored_bytes::BytesRingBuffer::new(128);
    let mut observer = tx.subscribe_observer(&ring);
    let message = |i: u64| -> Vec<u8> { vec![i as u8; (i % 17) as usize] };
    let (mut sent, mut got, mut last_seen) = (0u64, 0u64, 0u64);
    let mut accounted = 0;
    for _ in 0..4000 {
        match steps.next(7) {
            0..=2 => {
                if tx.try_push(&mut ring, &message(sent)) {
                    sent += 1;
                }
            }
            3..=5 => {
                if let Ok(Some(msg)) = anchor.try_pop(&ring) {
                    assert_eq!(msg.bytes(&anchor, &ring), &message(got)[..]);
                    msg.release(&mut anchor, &mut ring);
                    got += 1;
                }
            }
            _ => {
                let before = observer.reader.pos;
                match observer.try_pop(&ring) {
                    Ok(Some(msg)) => {
                        let place = (last_seen..sent).find(|i| message(*i) == msg);
                        last_seen = place.expect("a message that was pushed") + 1;
                        accounted += observer.reader.pos - before;
                    }
                    Ok(None) => {}
                    Err(anchored_bytes::PopError::Lagged { missed_bytes }) => {
                        assert!(missed_bytes > 0);
                        accounted += missed_bytes;
                    }
                    Err(e) => panic!("{e:?}"),
                }
            }
        }
        assert_eq!(accounted + observer.lag(&ring), tx.tail());
    }
    while let Ok(Some(msg)) = anchor.try_pop(&ring) {
        assert_eq!(msg.bytes(&anchor, &ring), &message(got)[..]);
        msg.release(&mut anchor, &mut ring);
        got += 1;
    }
    assert_eq!(got, sent);
}

#[test]
fn a_lossy_reader_counts_its_losses() {
    let mut steps = Steps(4);
    let (mut ring, mut tx, mut rx) = broadcast::RingBuffer::<u64>::new(16);
    let mut accounted = 0;
    for _ in 0..3000 {
        if steps.next(3) > 0 {
            let seq = tx.tail();
            tx.push(&mut ring, seq * 3);
        } else {
            match rx.try_pop(&ring) {
                Ok(Some(v)) => {
                    assert_eq!(v, accounted * 3);
                    accounted += 1;
                }
                Ok(None) => {}
                Err(broadcast::PopError::Lagged { missed }) => accounted += missed,
                Err(e) => panic!("{e:?}"),
            }
        }
        assert_eq!(accounted + rx.lag(&ring), tx.tail());
    }
    let skipped = rx.skip_to_latest(&ring);
    assert_eq!(accounted + skipped, tx.tail());
}

#[test]
fn a_lossy_byte_reader_counts_its_losses() {
    let mut steps = Steps(5);
    let (mut ring, mut tx, mut rx) = broadcast_bytes::BytesRingBuffer::new(256);
    let mut accounted = 0;
    let mut sent = 0u32;
    let mut last = None;
    for _ in 0..4000 {
        if steps.next(3) > 0 {
            tx.push(&mut ring, &sent.to_le_bytes());
            sent += 1;
        } else {
            let before = rx.reader.pos;
            match rx.try_pop(&ring) {
                Ok(Some(msg)) => {
                    let v = u32::from_le_bytes([msg[0], msg[1], msg[2], msg[3]]);
                    assert!(v < sent && last < Some(v));
                    last = Some(v);
                    accounted += rx.reader.pos - before;
                }
                Ok(None) => {}
                Err(broadcast_bytes::PopError::Lagged { missed_bytes }) => {
                    accounted += missed_bytes
                }
                Err(e) => panic!("{e:?}"),
            }
        }
        assert_eq!(accounted + rx.lag(&ring), tx.tail());
    }
}
