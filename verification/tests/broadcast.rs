//! The lossy rings.

use rust_rb::broadcast::{Consumer, PopError, RingBuffer};
use rust_rb::broadcast_bytes;
use rust_rb::bytelog::{judge_head, overrun, FrameHead};
use rust_rb::seqlock::{accept, read_valid, Slot};
use rust_rb::wait::YieldWait;

#[test]
fn a_consumer_reads_what_was_pushed() {
    let (mut ring, mut tx, mut rx) = RingBuffer::<u64>::new(8);
    assert_eq!(rx.try_pop(&ring), Ok(None));
    tx.push(&mut ring, 7);
    tx.push(&mut ring, 8);
    assert_eq!(rx.lag(&ring), 2);
    assert_eq!(rx.pop(&ring), Ok(7));
    let mut late: Consumer<YieldWait> = tx.subscribe(&ring);
    assert_eq!(late.try_pop(&ring), Ok(None));
    assert_eq!(rx.try_pop(&ring), Ok(Some(8)));
    tx.push(&mut ring, 9);
    assert_eq!(late.try_pop(&ring), Ok(Some(9)));
    assert_eq!(tx.tail(), 3);
}

#[test]
fn a_full_lap_behind_is_still_readable() {
    let (mut ring, mut tx, mut rx) = RingBuffer::<u64>::new(8);
    for i in 0..8 {
        tx.push(&mut ring, i);
    }
    assert_eq!(rx.lag(&ring), 8);
    for i in 0..8 {
        assert_eq!(rx.try_pop(&ring), Ok(Some(i)));
    }
}

#[test]
fn a_lapped_consumer_is_told_and_continues() {
    let (mut ring, mut tx, mut rx) = RingBuffer::<u64>::with_slack::<YieldWait>(8, 2);
    for i in 0..20 {
        tx.push(&mut ring, i);
    }
    assert_eq!(rx.try_pop(&ring), Err(PopError::Lagged { missed: 14 }));
    for i in 14..20 {
        assert_eq!(rx.try_pop(&ring), Ok(Some(i)));
    }
    assert_eq!(rx.try_pop(&ring), Ok(None));
}

#[test]
fn misses_and_messages_add_up() {
    let (mut ring, mut tx, mut rx) = RingBuffer::<u64>::new(16);
    let mut accounted = 0;
    for round in 0..50u64 {
        for i in 0..(round % 23) {
            tx.push(&mut ring, i);
        }
        for _ in 0..7 {
            match rx.try_pop(&ring) {
                Ok(Some(_)) => accounted += 1,
                Ok(None) => {}
                Err(PopError::Lagged { missed }) => accounted += missed,
                Err(PopError::Closed) => panic!("open"),
            }
        }
        assert_eq!(accounted + rx.lag(&ring), tx.tail());
    }
}

#[test]
fn one_slot_holds_the_last_message() {
    let (mut ring, mut tx, mut rx) = RingBuffer::<u8>::new(1);
    tx.push(&mut ring, 1);
    tx.push(&mut ring, 2);
    assert_eq!(rx.try_pop(&ring), Err(PopError::Lagged { missed: 1 }));
    assert_eq!(rx.try_pop(&ring), Ok(Some(2)));
    assert_eq!(tx.capacity(), 1);
}

#[test]
fn the_tail_can_be_published_in_batches() {
    let (mut ring, mut tx, mut rx) = RingBuffer::<u64>::new(32);
    assert_eq!(tx.set_tail_batch(&mut ring, 100), 4);
    assert_eq!(tx.set_tail_batch(&mut ring, 0), 1);
    assert_eq!(tx.set_tail_batch(&mut ring, 3), 3);
    tx.push(&mut ring, 1);
    tx.push(&mut ring, 2);
    assert_eq!(rx.try_pop(&ring), Ok(None));
    assert_eq!(tx.tail(), 2);
    tx.push(&mut ring, 3);
    assert_eq!(rx.lag(&ring), 3);
    tx.push(&mut ring, 4);
    tx.flush(&mut ring);
    assert_eq!(rx.lag(&ring), 4);
    tx.push(&mut ring, 5);
    tx.push(&mut ring, 6);
    assert_eq!(tx.set_tail_batch(&mut ring, 2), 2);
    assert_eq!(rx.lag(&ring), 6);
    tx.push(&mut ring, 7);
    tx.close(&mut ring);
    for i in 1..=7 {
        assert_eq!(rx.pop(&ring), Ok(i));
    }
    assert!(rx.ready(&ring));
    assert_eq!(rx.pop(&ring), Err(PopError::Closed));
}

#[test]
fn skipping_to_the_latest() {
    let (mut ring, mut tx, mut rx) = RingBuffer::<u64>::new(4);
    for i in 0..10 {
        tx.push(&mut ring, i);
    }
    assert_eq!(rx.skip_to_latest(&ring), 10);
    assert_eq!(rx.skip_to_latest(&ring), 0);
    assert_eq!(rx.try_pop(&ring), Ok(None));
    tx.push(&mut ring, 10);
    assert_eq!(rx.try_pop(&ring), Ok(Some(10)));
    assert_eq!(rx.subscribe(&ring).try_pop(&ring), Ok(None));
    assert_eq!(rx.capacity(), 4);
}

#[test]
fn lossy_errors_in_words() {
    assert_eq!(
        PopError::Lagged { missed: 1204 }.message(),
        "consumer lagged: 1204 messages overwritten unread"
    );
    assert_eq!(
        PopError::Closed.message(),
        "ring closed: producer dropped and all published messages consumed"
    );
    assert_eq!(
        broadcast_bytes::PopError::Lagged { missed_bytes: 0 }.message(),
        "consumer lagged: 0 bytes overwritten unread"
    );
    assert_eq!(
        broadcast_bytes::PopError::Closed.message(),
        "ring closed: producer dropped and all published messages consumed"
    );
}

#[test]
fn a_copy_is_accepted_under_one_generation() {
    assert_eq!(accept(4, 4, Some(1u8), 4), Some(1));
    assert_eq!(accept(4, 4, Some(1u8), 5), None);
    assert_eq!(accept(4, 3, Some(1u8), 3), None);
    let mut slot: Slot<u8> = Slot::new();
    assert_eq!(read_valid(&slot, 2), None);
    slot.invalidate(0);
    slot.write_payload(9);
    assert_eq!(read_valid(&slot, 2), None);
    slot.validate(0);
    assert_eq!(read_valid(&slot, 2), Some(9));
    slot.invalidate(8);
    assert_eq!(read_valid(&slot, 2), None);
}

#[test]
fn byte_messages_come_out_as_they_went_in() {
    let (mut ring, mut tx, mut rx) = broadcast_bytes::BytesRingBuffer::new(256);
    let mut sent: Vec<Vec<u8>> = Vec::new();
    for i in 0..100usize {
        let msg: Vec<u8> = (0..(i * 7) % 33).map(|b| (b + i) as u8).collect();
        tx.push(&mut ring, &msg);
        sent.push(msg);
        if i % 3 == 2 {
            for want in sent.drain(..) {
                assert_eq!(rx.pop(&ring), Ok(want));
            }
        }
    }
    assert_eq!(rx.max_message_len(), 32);
    assert_eq!(tx.max_message_len(), 32);
    assert_eq!(rx.capacity(), 256);
    assert_eq!(tx.capacity(), 256);
}

#[test]
fn an_overrun_consumer_continues_at_the_last_record() {
    let (mut ring, mut tx, mut rx) = broadcast_bytes::BytesRingBuffer::new(64);
    for i in 0..9u8 {
        tx.push(&mut ring, &[i]);
    }
    assert_eq!(tx.tail(), 72);
    assert_eq!(rx.lag(&ring), 72);
    let mut out = vec![1, 2, 3];
    assert_eq!(
        rx.try_pop_into(&ring, &mut out),
        Err(broadcast_bytes::PopError::Lagged { missed_bytes: 64 })
    );
    assert_eq!(out, vec![1, 2, 3]);
    assert_eq!(rx.try_pop_into(&ring, &mut out), Ok(true));
    assert_eq!(out, vec![8]);
    assert_eq!(rx.try_pop_into(&ring, &mut out), Ok(false));
    assert_eq!(out, vec![8]);
}

#[test]
fn missed_and_consumed_bytes_add_up() {
    let (mut ring, mut tx, mut rx) = broadcast_bytes::BytesRingBuffer::new(64);
    let mut accounted = 0;
    for round in 0..200usize {
        tx.push(&mut ring, &vec![7u8; round % 9]);
        if round % 13 == 0 {
            loop {
                let before = rx.reader.pos;
                match rx.try_pop(&ring) {
                    Ok(Some(_)) => accounted += rx.reader.pos - before,
                    Ok(None) => break,
                    Err(broadcast_bytes::PopError::Lagged { missed_bytes }) => {
                        accounted += missed_bytes
                    }
                    Err(broadcast_bytes::PopError::Closed) => panic!("open"),
                }
            }
            assert_eq!(accounted, tx.tail());
        }
    }
}

#[test]
fn the_smallest_byte_ring() {
    let (mut ring, mut tx, mut rx) = broadcast_bytes::BytesRingBuffer::new(1);
    assert_eq!(ring.buf.len(), 8);
    tx.push(&mut ring, b"");
    assert_eq!(rx.pop(&ring), Ok(vec![]));
    tx.push(&mut ring, b"x");
    tx.push(&mut ring, b"y");
    assert_eq!(
        rx.pop(&ring),
        Err(broadcast_bytes::PopError::Lagged { missed_bytes: 8 })
    );
    let mut out = vec![9];
    assert_eq!(rx.pop_into(&ring, &mut out), Ok(()));
    assert_eq!(out, b"y");
    tx.close(&mut ring);
    assert!(rx.ready(&ring));
    assert_eq!(rx.pop_into(&ring, &mut out), Err(broadcast_bytes::PopError::Closed));
    assert!(out.is_empty());
    assert_eq!(rx.try_pop(&ring), Err(broadcast_bytes::PopError::Closed));
}

#[test]
fn byte_consumers_join_and_skip() {
    let (mut ring, mut tx, mut rx) =
        broadcast_bytes::BytesRingBuffer::with_wait_strategies::<YieldWait>(64);
    tx.push(&mut ring, b"abc");
    let mut late: broadcast_bytes::BytesConsumer<YieldWait> = tx.subscribe(&ring);
    assert_eq!(late.try_pop(&ring), Ok(None));
    assert_eq!(rx.skip_to_latest(&ring), 8);
    assert_eq!(rx.try_pop(&ring), Ok(None));
    tx.push(&mut ring, b"def");
    assert_eq!(late.try_pop(&ring), Ok(Some(b"def".to_vec())));
    assert_eq!(rx.subscribe(&ring).try_pop(&ring), Ok(None));
    assert_eq!(rx.try_pop(&ring), Ok(Some(b"def".to_vec())));
}

#[test]
fn heads_and_windows() {
    assert!(!overrun(64, 0, 64));
    assert!(overrun(72, 0, 64));
    assert!(matches!(judge_head(u32::MAX, 8, 64), FrameHead::Padding));
    assert!(matches!(judge_head(8, 0, 64), FrameHead::Record { len: 8 }));
    assert!(matches!(judge_head(9, 0, 64), FrameHead::Torn));
    assert!(matches!(judge_head(8, 56, 64), FrameHead::Torn));
}
