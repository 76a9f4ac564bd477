//! Sizes, layouts and bounds.

use rust_rb::anchored;
use rust_rb::anchored_bytes;
use rust_rb::atomic_copy::{copy_in_lanes, copy_out_lanes, load_lane, store_lane};
use rust_rb::broadcast;
use rust_rb::broadcast_bytes;
use rust_rb::cursor;
use rust_rb::frames;
use rust_rb::padded::Padded;
use rust_rb::cache_padded::CachePadded;
use rust_rb::registry;
use rust_rb::seqlock::{data_offset_of, reposition_target, shm_slot_align, shm_slot_stride};

#[test]
fn publish_batch_policy() {
    assert_eq!(anchored::publish_batch(2), 1);
    assert_eq!(anchored::publish_batch(64), 8);
    assert_eq!(anchored::publish_batch(1024), 64);
    assert_eq!(anchored::publish_batch(1 << 20), anchored::MAX_PUBLISH_BATCH);
}

#[test]
fn anchored_default_slack_policy() {
    assert_eq!(anchored::default_slack(2), 1);
    assert_eq!(anchored::default_slack(8), 1);
    assert_eq!(anchored::default_slack(16), 2);
    assert_eq!(anchored::default_slack(1024), 128);
}

#[test]
fn anchored_reposition_target_math() {
    assert_eq!(anchored::reposition_target(20, 8, 2), 14);
    assert_eq!(anchored::reposition_target(17, 8, 0), 9);
    assert_eq!(anchored::reposition_target(1, 8, 2), 0);
    assert_eq!(anchored::reposition_target(u64::MAX, 8, 2), u64::MAX - 8);
}

#[test]
fn slot_payload_word_aligned() {
    assert_eq!(data_offset_of::<u8>() % std::mem::align_of::<usize>(), 0);
    assert_eq!(data_offset_of::<[u8; 3]>() % std::mem::align_of::<usize>(), 0);
    assert_eq!(data_offset_of::<u128>() % std::mem::align_of::<usize>(), 0);
}

#[test]
fn anchored_bytes_record_len_is_8_aligned_header_inclusive() {
    assert_eq!(anchored_bytes::record_len(0), 8);
    assert_eq!(anchored_bytes::record_len(4), 8);
    assert_eq!(anchored_bytes::record_len(5), 16);
    assert_eq!(anchored_bytes::record_len(12), 16);
    assert_eq!(anchored_bytes::record_len(13), 24);
}

#[test]
fn anchored_bytes_max_message_len_is_capacity_over_8() {
    assert_eq!(anchored_bytes::max_message_len(16), 2);
    assert_eq!(anchored_bytes::max_message_len(64), 8);
    assert_eq!(anchored_bytes::max_message_len(1024), 128);
    for cap in [16usize, 64, 1024, 4096] {
        assert!(anchored_bytes::record_len(anchored_bytes::max_message_len(cap)) <= cap);
    }
}

#[test]
fn max_record_span_fits_under_the_free_run_grant() {
    let mut cap = anchored_bytes::MIN_CAPACITY;
    while cap <= 1 << 20 {
        assert!(
            anchored_bytes::max_record_span(cap) < cap,
            "span {} must undercut capacity {cap}",
            anchored_bytes::max_record_span(cap)
        );
        cap *= 2;
    }
}

#[test]
fn starving_filter_threshold_is_meaningful() {
    for cap in [64usize, 256, 1024, 4096] {
        let threshold = cap - anchored_bytes::max_record_span(cap);
        assert!(
            threshold > cap / 2,
            "threshold {threshold} must exceed half of {cap}"
        );
    }
}

fn lanes_round_trip() {
    let mut scratch = vec![0u8; 32];
    for len in 0..=9usize {
        let src: Vec<u8> = (0..len).map(|i| i as u8 + 100).collect();
        let mut dst: Vec<u8> = Vec::new();
        copy_in_lanes(&src, &mut scratch, 4);
        copy_out_lanes(&scratch, 4, &mut dst, len);
        assert_eq!(src, dst, "len {len}");
    }
}

#[test]
fn anchored_bytes_lane_copy_round_trips_every_phase() {
    lanes_round_trip();
}

#[test]
fn broadcast_bytes_lane_copy_round_trips_every_phase() {
    lanes_round_trip();
}

#[test]
fn a_last_lane_is_filled_with_zeroes() {
    let mut buf = vec![0xaau8; 12];
    copy_in_lanes(&[1, 2, 3, 4, 5], &mut buf, 4);
    assert_eq!(buf, [0xaa, 0xaa, 0xaa, 0xaa, 1, 2, 3, 4, 5, 0, 0, 0]);
}

#[test]
fn a_lane_is_little_endian() {
    let mut buf = vec![0u8; 8];
    store_lane(&mut buf, 4, 0x0403_0201);
    assert_eq!(buf, [0, 0, 0, 0, 1, 2, 3, 4]);
    assert_eq!(load_lane(&buf, 4), 0x0403_0201);
    store_lane(&mut buf, 0, u32::MAX);
    assert_eq!(load_lane(&buf, 0), frames::PADDING);
}

#[test]
fn broadcast_reposition_target_math() {
    assert_eq!(reposition_target(20, 8, 2), 14);
    assert_eq!(reposition_target(17, 8, 0), 9);
    assert_eq!(reposition_target(1, 8, 2), 0);
    assert_eq!(reposition_target(0, 8, 0), 0);
    assert_eq!(reposition_target(u64::MAX, 8, 2), u64::MAX - 8);
}

#[test]
fn broadcast_default_slack_policy() {
    assert_eq!(broadcast::default_slack(1), 0);
    assert_eq!(broadcast::default_slack(2), 1);
    assert_eq!(broadcast::default_slack(8), 1);
    assert_eq!(broadcast::default_slack(16), 2);
    assert_eq!(broadcast::default_slack(1024), 128);
}

#[test]
fn u8_data_aligned() {
    assert_eq!(data_offset_of::<u8>() % std::mem::align_of::<usize>(), 0);
}

#[test]
fn u16_data_aligned() {
    assert_eq!(data_offset_of::<u16>() % std::mem::align_of::<usize>(), 0);
}

#[test]
fn u32_data_aligned() {
    assert_eq!(data_offset_of::<u32>() % std::mem::align_of::<usize>(), 0);
}

#[test]
fn u128_data_aligned() {
    assert_eq!(data_offset_of::<u128>() % std::mem::align_of::<usize>(), 0);
}

#[test]
fn arr3_u8_data_aligned() {
    assert_eq!(data_offset_of::<[u8; 3]>() % std::mem::align_of::<usize>(), 0);
}

#[test]
fn slot_strides() {
    assert_eq!(shm_slot_align(1), 8);
    assert_eq!(shm_slot_align(64), 64);
    assert_eq!(shm_slot_stride(8, 8), Some(16));
    assert_eq!(shm_slot_stride(1, 1), Some(16));
    assert_eq!(shm_slot_stride(12, 4), Some(24));
    assert_eq!(shm_slot_stride(16, 16), Some(32));
    assert_eq!(shm_slot_stride(64, 64), Some(128));
    assert_eq!(shm_slot_stride(usize::MAX, 8), None);
}

#[test]
fn broadcast_bytes_record_len_is_8_aligned_header_inclusive() {
    assert_eq!(frames::record_len(0), 8);
    assert_eq!(frames::record_len(1), 8);
    assert_eq!(frames::record_len(4), 8);
    assert_eq!(frames::record_len(5), 16);
    assert_eq!(frames::record_len(8), 16);
    assert_eq!(frames::record_len(12), 16);
    assert_eq!(frames::record_len(13), 24);
}

#[test]
fn broadcast_bytes_max_message_len_is_capacity_over_8() {
    assert_eq!(frames::max_message_len(8), 1);
    assert_eq!(frames::max_message_len(64), 8);
    assert_eq!(frames::max_message_len(4096), 512);
    for cap in [8usize, 16, 64, 4096] {
        assert!(frames::record_len(frames::max_message_len(cap)) <= cap);
    }
}

#[test]
fn a_length_never_reads_as_padding() {
    assert_eq!(frames::max_message_len(usize::MAX / 2 + 1), (frames::PADDING - 1) as usize);
}

#[test]
fn round_capacity_policy() {
    assert_eq!(broadcast_bytes::round_capacity(1), broadcast_bytes::MIN_CAPACITY);
    assert_eq!(broadcast_bytes::round_capacity(8), 8);
    assert_eq!(broadcast_bytes::round_capacity(9), 16);
    assert_eq!(broadcast_bytes::round_capacity(4000), 4096);
}

#[test]
fn rounding_up_to_powers_of_two() {
    assert_eq!(cursor::round_capacity(1, 1), 1);
    assert_eq!(cursor::round_capacity(2, 1), 2);
    assert_eq!(cursor::round_capacity(3, 1), 4);
    assert_eq!(cursor::round_capacity(1, 2), 2);
    assert_eq!(cursor::round_capacity(65, 2), 128);
    assert_eq!(anchored::round_capacity(1), 2);
    assert_eq!(cursor::round_capacity(usize::MAX / 2 + 1, 1), usize::MAX / 2 + 1);
}

#[test]
fn batches_of_bytes_and_elements() {
    assert_eq!(cursor::publish_batch(7, 64), 1);
    assert_eq!(cursor::publish_batch(8, 64), 1);
    assert_eq!(cursor::publish_batch(16, 64), 2);
    assert_eq!(registry::publish_batch_elems(1 << 20), 64);
    assert_eq!(registry::publish_batch_bytes(1 << 20), 4096);
    assert_eq!(registry::publish_batch_bytes(64), 8);
}

#[test]
fn gating_arithmetic_wraps() {
    assert!(!registry::lacks_space(u64::MAX, 2, u64::MAX - 5, 8));
    assert!(registry::lacks_space(u64::MAX, 4, u64::MAX - 5, 8));
    assert!(!cursor::lacks_space(usize::MAX, 1, usize::MAX, 1));
    assert!(cursor::lacks_space(usize::MAX, 2, usize::MAX, 1));
    assert!(cursor::no_item(5, 5));
    assert!(!cursor::no_item(6, 5));
    assert_eq!(registry::guard_sentinel(registry::DETACHED), registry::DETACHED - 1);
    assert_eq!(registry::guard_sentinel(7), 7);
}

#[test]
fn frames_pad_at_the_end() {
    assert_eq!(frames::frame(0, 63, 8), (0, 16));
    assert_eq!(frames::frame(48, 63, 8), (0, 16));
    assert_eq!(frames::frame(56, 63, 8), (8, 24));
    assert_eq!(frames::frame(56, 63, 4), (0, 8));
    assert_eq!(frames::max_record_span(64), 24);
}

#[test]
fn wrap_and_unwrap() {
    let p = Padded::new(41u64);
    assert_eq!(*p, 41);
    let mut p = Padded::from(41u64);
    *p += 1;
    assert_eq!(p.into_inner(), 42);
}

#[test]
fn wrapped_shared_words() {
    let mut c = CachePadded::new(3u32);
    *c += 4;
    assert_eq!(*c, 7);
    let d: CachePadded<u32> = CachePadded::default();
    assert_eq!(*d, 0);
    let e: Padded<u8> = Padded::default();
    assert_eq!(e.into_inner(), 0);
}

#[test]
fn two_party_cursors() {
    let (mut shared, mut tx, mut rx) = cursor::channel(4, vec![0u8; 4]);
    assert!(tx.has_space(&shared, 4));
    assert!(!rx.has_item(&shared));
    tx.publish(&mut shared, 3);
    assert_eq!(tx.slot(), 3);
    assert_eq!(cursor::shared_len(&shared), 3);
    assert!(!tx.has_space(&shared, 2));
    assert!(rx.has_item(&shared));
    assert_eq!(rx.available(&shared), 3);
    rx.advance(&mut shared, 1, 2, usize::MAX);
    assert_eq!(cursor::shared_len(&shared), 3);
    rx.advance(&mut shared, 1, 2, usize::MAX);
    assert_eq!(cursor::shared_len(&shared), 1);
    assert!(tx.has_space(&shared, 3));
    tx.publish(&mut shared, 3);
    assert!(cursor::shared_is_full(&shared));
    assert_eq!(tx.slot(), 2);
    assert_eq!(rx.refresh(&shared), 6);
    rx.advance(&mut shared, 1, 64, 3);
    assert!(!cursor::shared_is_full(&shared));
    rx.advance(&mut shared, 2, 64, 3);
    assert_eq!(cursor::shared_len(&shared), 3);
    rx.flush_pending(&mut shared);
    assert_eq!(cursor::shared_len(&shared), 1);
    rx.advance(&mut shared, 1, 64, 3);
    assert!(cursor::shared_is_empty(&shared));
    assert_eq!(tx.capacity(), 4);
    assert_eq!(rx.capacity(), 4);
    assert_eq!(rx.slot(), 2);
}
