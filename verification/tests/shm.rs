//! Shared-memory rings, over regions in ordinary memory.

use rust_rb::anchored;
use rust_rb::anchored_bytes;
use rust_rb::atomic_copy::{copy_in_words, copy_out_words};
use rust_rb::attach::{
    confirm_look, confirm_region, judge_samples, open_anch_region, open_bcast_region, open_region,
    open_spmc_region, probe_region, CursorSample,
};
use rust_rb::broadcast;
use rust_rb::broadcast_bytes;
use rust_rb::create::{create_anch_region, create_bcast_region, create_region, create_spmc_region};
use rust_rb::region::{
    anch_region_len, bcast_region_len, control_epoch, control_is_active, control_state,
    control_word, read_u32, read_u64, region_len, spmc_region_len, ErrorKind, ShmError,
    ANCH_BYTES_TABLE_OFFSET, ANCH_ELEMS_TABLE_OFFSET, BCAST_BYTES_BUFFER_OFFSET, BUFFER_OFFSET,
    KIND_ANCH_BYTES, KIND_ANCH_ELEMS, KIND_BCAST_BYTES, KIND_BCAST_ELEMS, KIND_BYTES, KIND_ELEMS,
    KIND_SPMC_ELEMS, MAGIC, OFF_GENERATION, STATE_ACTIVE, STATE_FREE, STATE_RETIRED,
};
use rust_rb::region_lanes;
use rust_rb::gate::GateProducer;
use rust_rb::gate_shm::GateShmProducer;
use rust_rb::registry::DETACHED;
use rust_rb::shm::{
    check_elem_type, check_slot_type, elem_type, ElemType,
};
use rust_rb::shm_dense::dense_geometry;
use rust_rb::shm_gating::{shm_subscribe_anchor, GateOpened};
use rust_rb::shm_slots::slot_geometry;
use rust_rb::spmc;
use rust_rb::spmc_bytes;
use rust_rb::spsc::RingBuffer;
use rust_rb::spsc_bytes::BytesRingBuffer;
use rust_rb::table::{
    claim_lease, claim_table_slot, force_claim_lease, force_detach_table_slot, release_lease,
    release_table_claim, reset_gate_table, Role,
};

fn words(len: usize) -> Vec<u64> {
    vec![0xdead_beef_dead_beef; (len + 7) / 8]
}

fn zeroed_words(len: usize) -> Vec<u64> {
    vec![0; (len + 7) / 8]
}

fn fresh_region() -> (Vec<u64>, u64) {
    let len = region_len(64, 8).unwrap();
    let mut region = zeroed_words(len);
    let pair = RingBuffer::<u64>::create_shm(&mut region, 64, 11, 12, 1).unwrap();
    pair.producer_anchor.teardown(&mut region, 1);
    pair.consumer_anchor.teardown(&mut region, 1);
    (region, len as u64)
}

#[test]
fn odd_generation_is_rejected_as_initializing() {
    let (mut region, len) = fresh_region();
    region[OFF_GENERATION / 8] |= 1;
    let err = RingBuffer::<u64>::attach_shm_consumer(&mut region, len, 5, 1)
        .err()
        .expect("odd generation must be rejected");
    assert_eq!(err.kind(), ErrorKind::InvalidData);
    assert!(
        err.message().contains("being initialized"),
        "unexpected error: {}",
        err.message()
    );
}

#[test]
fn even_generation_attaches() {
    let (mut region, len) = fresh_region();
    let rx = RingBuffer::<u64>::attach_shm_consumer(&mut region, len, 5, 1);
    assert!(rx.is_ok(), "a valid even-generation ring must attach");
}

#[test]
fn lengths_of_regions() {
    assert_eq!(region_len(64, 8), Ok(384 + 512));
    assert_eq!(spmc_region_len(64, 8, 3), Ok(384 + 512 + 384));
    assert_eq!(bcast_region_len(64, 16, 384), Ok(384 + 1024));
    assert_eq!(anch_region_len(64, 1, 512, 2), Ok(512 + 64 + 256));
    assert_eq!(region_len(usize::MAX, 2), Err(ShmError::CapacityOverflow));
    assert_eq!(region_len(usize::MAX, 1), Err(ShmError::CapacityOverflow));
    assert_eq!(spmc_region_len(8, 8, usize::MAX), Err(ShmError::CapacityOverflow));
    assert_eq!(region_len(usize::MAX / 2, 1), Err(ShmError::LengthLimit));
    assert_eq!(anch_region_len(usize::MAX / 2 + 1, 1, 512, 1), Err(ShmError::LengthLimit));
}

#[test]
fn a_created_header() {
    let len = region_len(64, 8).unwrap();
    let mut region = words(len);
    region[7] = 6;
    assert_eq!(create_region(&mut region, KIND_ELEMS, 64, 8, 21, 22), Ok(()));
    assert_eq!(read_u64(&region, 0), MAGIC);
    assert_eq!(&region[0].to_le_bytes(), b"rust_rb1");
    assert_eq!(read_u32(&region, 8), 1);
    assert_eq!(read_u32(&region, 12), KIND_ELEMS);
    assert_eq!(read_u64(&region, 16), 64);
    assert_eq!(read_u64(&region, 24), 8);
    assert_eq!(read_u32(&region, 32), usize::BITS);
    assert_eq!(read_u32(&region, 36), 0);
    assert_eq!(read_u64(&region, 40), 21);
    assert_eq!(read_u64(&region, 48), 22);
    assert_eq!(read_u64(&region, 56), 8);
    assert_eq!(read_u64(&region, 128), 0);
    assert_eq!(read_u64(&region, 152), 0);
    assert_eq!(read_u64(&region, 256), 0);
    assert_eq!(read_u64(&region, 264), 0);
    assert!(region[48..].iter().all(|w| *w == 0));
    region[7] = 9;
    assert_eq!(create_region(&mut region, KIND_ELEMS, 64, 8, 21, 22), Ok(()));
    assert_eq!(region[7], 10);
}

#[test]
fn created_tables_are_detached() {
    let len = spmc_region_len(8, 4, 2).unwrap();
    let mut region = words(len);
    assert_eq!(create_spmc_region(&mut region, KIND_SPMC_ELEMS, 8, 4, 2, 5), Ok(()));
    assert_eq!(read_u32(&region, 36), 2);
    assert_eq!(region[6], 0);
    assert_eq!(region[48 + 2], DETACHED);
    assert_eq!(region[48 + 16 + 2], DETACHED);
    assert_eq!(region[48 + 1], 0);
    assert_eq!(region[48 + 32], 0);
    assert_eq!(
        create_spmc_region(&mut region, KIND_SPMC_ELEMS, 8, 4, 0, 5),
        Err(ShmError::NoConsumerSlots)
    );
    let mut none: Vec<u64> = Vec::new();
    assert_eq!(
        create_spmc_region(&mut none, KIND_SPMC_ELEMS, usize::MAX, 4, u32::MAX as usize + 1, 5),
        Err(ShmError::TooManyConsumerSlots)
    );
    assert_eq!(
        create_anch_region(&mut none, KIND_ANCH_BYTES, usize::MAX, 1, 1, 512, u32::MAX as usize + 1, 0, 5),
        Err(ShmError::TooManyAnchorSlots)
    );
    assert_eq!(
        create_anch_region(&mut none, KIND_ANCH_BYTES, usize::MAX, 1, 1, 512, 0, 0, 5),
        Err(ShmError::NoAnchorSlots)
    );
    let len = anch_region_len(16, 1, 512, 1).unwrap();
    let mut region = words(len);
    assert_eq!(create_anch_region(&mut region, KIND_ANCH_BYTES, 16, 1, 1, 512, 1, 0, 5), Ok(()));
    assert_eq!(region[64 + 2], DETACHED);
    assert_eq!(region[18], 0);
    assert_eq!(region[19], 1);
    let len = bcast_region_len(4, 16, 384).unwrap();
    let mut region = words(len);
    assert_eq!(create_bcast_region(&mut region, KIND_BCAST_ELEMS, 4, 8, 16, 384, 3, 5), Ok(()));
    assert_eq!((region[16], region[17], region[18], region[19]), (0, 0, 3, 16));
}

#[test]
fn every_header_fault_is_told_apart() {
    let (region, len) = fresh_region();
    let open = |r: &Vec<u64>, l: u64| open_region(r, l, KIND_ELEMS, 8, 1, 1).map(|o| o.capacity);
    assert_eq!(open(&region, len), Ok(64));
    assert_eq!(open(&region, 383), Err(ShmError::TooSmall));
    let mut r = region.clone();
    r[7] = 3;
    assert_eq!(open(&r, len), Err(ShmError::Initializing));
    let mut r = region.clone();
    r[0] += 1;
    assert_eq!(open(&r, len), Err(ShmError::BadMagic));
    let mut r = region.clone();
    r[1] += 1;
    assert_eq!(open(&r, len), Err(ShmError::BadVersion));
    assert_eq!(
        open_region(&region, len, KIND_BYTES, 8, 1, 1).err(),
        Some(ShmError::PairKindMismatch)
    );
    assert_eq!(
        open_region(&region, len, KIND_ELEMS, 0, 1, 1).err(),
        Some(ShmError::ZeroSizedUnit)
    );
    assert_eq!(
        open_region(&region, len, KIND_ELEMS, 4, 1, 1).err(),
        Some(ShmError::UnitSizeMismatch)
    );
    let mut r = region.clone();
    r[4] = 16;
    assert_eq!(open(&r, len), Err(ShmError::ArchMismatch));
    for bad in [0u64, 3, 96] {
        let mut r = region.clone();
        r[2] = bad;
        assert_eq!(open(&r, len), Err(ShmError::CorruptCapacity));
    }
    assert_eq!(
        open_region(&region, len, KIND_ELEMS, 8, 128, 1).err(),
        Some(ShmError::CorruptCapacity)
    );
    let mut r = region.clone();
    r[2] = 1 << 63;
    assert_eq!(open(&r, len), Err(ShmError::CapacityOverflow));
    let mut r = region.clone();
    r[2] = 1 << 60;
    assert_eq!(open(&r, len), Err(ShmError::LengthLimit));
    assert_eq!(open(&region, len - 1), Err(ShmError::Truncated));
    let mut r = region.clone();
    r[16] = 65;
    assert_eq!(open(&r, len), Err(ShmError::OverfullCursors));
    assert_eq!(
        open_region(&r, len, KIND_ELEMS, 8, 1, 8).err(),
        Some(ShmError::UnalignedCursors)
    );
    assert_eq!(open_spmc_region(&region, len, KIND_SPMC_ELEMS, 8, 2, 1).err(), Some(ShmError::KindMismatch));
}

#[test]
fn cursors_that_wrap_are_not_corrupt() {
    let (mut region, len) = fresh_region();
    region[16] = 3;
    region[32] = u64::MAX - 4;
    assert!(open_region(&region, len, KIND_ELEMS, 8, 1, 1).is_ok());
}

#[test]
fn a_busy_ring_is_not_corrupt() {
    let moving = CursorSample { write_before: 100, read: 0, write_after: 101 };
    let still = CursorSample { write_before: 100, read: 0, write_after: 100 };
    assert_eq!(judge_samples(&[moving; 64], 1, 64), Ok(()));
    assert_eq!(judge_samples(&[moving, still], 1, 64), Err(ShmError::OverfullCursors));
    assert_eq!(judge_samples(&[moving, still], 1, 100), Ok(()));
    assert_eq!(judge_samples(&[moving, still], 8, 100), Err(ShmError::UnalignedCursors));
    let mut many = vec![moving; 64];
    many.push(still);
    assert_eq!(judge_samples(&many, 1, 64), Ok(()));
    let (region, len) = fresh_region();
    let opened = probe_region(&region, len, KIND_ELEMS, 8, 1).unwrap();
    assert_eq!(opened.len as u64, len);
    assert_eq!(confirm_region(&opened, &[still], 1, opened.generation), Err(ShmError::OverfullCursors));
    assert_eq!(
        confirm_region(&opened, &[], 1, opened.generation + 2),
        Err(ShmError::ReinitializedWhileReading)
    );
    assert_eq!(confirm_look(8, 8, 2, 2, ShmError::UnalignedTail), Ok(()));
    assert_eq!(confirm_look(9, 8, 2, 2, ShmError::UnalignedTail), Err(ShmError::UnalignedTail));
    assert_eq!(
        confirm_look(8, 8, 2, 4, ShmError::UnalignedTail),
        Err(ShmError::ReinitializedWhileReading)
    );
}

#[test]
fn faults_of_the_other_headers() {
    let len = spmc_region_len(8, 8, 2).unwrap();
    let mut region = words(len);
    create_spmc_region(&mut region, KIND_SPMC_ELEMS, 8, 8, 2, 5).unwrap();
    let opened = open_spmc_region(&region, len as u64, KIND_SPMC_ELEMS, 8, 2, 1).unwrap();
    assert_eq!((opened.capacity, opened.max_consumers, opened.len), (8, 2, len));
    let mut r = region.clone();
    r[4] = usize::BITS as u64;
    assert_eq!(
        open_spmc_region(&r, len as u64, KIND_SPMC_ELEMS, 8, 2, 1).err(),
        Some(ShmError::CorruptMaxConsumers)
    );
    let mut r = region.clone();
    r[2] = 1 << 62;
    assert_eq!(
        open_spmc_region(&r, len as u64, KIND_SPMC_ELEMS, 8, 2, 1).err(),
        Some(ShmError::CorruptGeometry)
    );
    let mut r = region.clone();
    r[16] = 5;
    assert_eq!(
        open_spmc_region(&r, len as u64, KIND_SPMC_ELEMS, 8, 2, 8).err(),
        Some(ShmError::UnalignedCursors)
    );
    let len = bcast_region_len(8, 16, BUFFER_OFFSET).unwrap();
    let mut region = words(len);
    create_bcast_region(&mut region, KIND_BCAST_ELEMS, 8, 8, 16, BUFFER_OFFSET, 1, 5).unwrap();
    let open = |r: &Vec<u64>, stride: usize| {
        open_bcast_region(r, len as u64, KIND_BCAST_ELEMS, 8, stride, BUFFER_OFFSET, 1, 1)
            .map(|o| o.slack)
    };
    assert_eq!(open(&region, 16), Ok(1));
    assert_eq!(open(&region, 24), Err(ShmError::StrideMismatch));
    let mut r = region.clone();
    r[18] = 8;
    assert_eq!(open(&r, 16), Err(ShmError::CorruptSlack));
    let len = anch_region_len(16, 1, ANCH_BYTES_TABLE_OFFSET, 1).unwrap();
    let mut region = words(len);
    create_anch_region(&mut region, KIND_ANCH_BYTES, 16, 1, 1, 512, 1, 0, 5).unwrap();
    let open = |r: &Vec<u64>| {
        open_anch_region(r, len as u64, KIND_ANCH_BYTES, 1, 1, 512, 16, 8).map(|o| o.max_anchors)
    };
    assert_eq!(open(&region), Ok(1));
    let mut r = region.clone();
    r[18] = 999;
    assert_eq!(open(&r), Ok(1));
    r[16] = 4;
    assert_eq!(open(&r), Err(ShmError::UnalignedTail));
    let mut r = region.clone();
    r[4] = usize::BITS as u64;
    assert_eq!(open(&r), Err(ShmError::CorruptMaxAnchors));
}

#[test]
fn leases_are_exclusive() {
    let (mut region, _) = fresh_region();
    let generation = region[7];
    assert_eq!(claim_lease(&mut region, Role::Producer, generation, 31), Ok(31));
    assert_eq!(claim_lease(&mut region, Role::Producer, generation, 32), Err(ShmError::RoleHeld));
    assert_eq!(claim_lease(&mut region, Role::Consumer, generation, 33), Ok(33));
    release_lease(&mut region, Role::Consumer, 34);
    assert_eq!(region[6], 33);
    release_lease(&mut region, Role::Consumer, 33);
    assert_eq!(region[6], 0);
    assert_eq!(
        claim_lease(&mut region, Role::Consumer, generation + 2, 33),
        Err(ShmError::ReinitializedWhileAttaching)
    );
    assert_eq!(region[6], 0);
    assert_eq!(force_claim_lease(&mut region, Role::Producer, 40), 40);
    release_lease(&mut region, Role::Producer, 31);
    assert_eq!(region[5], 40);
}

#[test]
fn two_party_rings_are_attached_and_recovered() {
    let len = region_len(16, 1).unwrap();
    let mut region = words(len);
    let pair = BytesRingBuffer::create_shm(&mut region, 10, 3, 4, 77).unwrap();
    assert_eq!(pair.producer.capacity(), 16);
    assert!(pair.producer_anchor.owns_lease(&region));
    assert!(pair.consumer_anchor.owned_by(77));
    assert_eq!(
        BytesRingBuffer::attach_shm_producer(&mut region, len as u64, 5, 77).err(),
        Some(ShmError::RoleHeld)
    );
    pair.producer_anchor.teardown(&mut region, 78);
    assert_eq!(region[5], 3);
    region[16] = 8;
    region[33] = 9;
    let (tx, anchor) = BytesRingBuffer::force_attach_shm_producer(&mut region, len as u64, 5, 78).unwrap();
    assert_eq!((tx.write_cursor, tx.read_cursor_cache, region[33]), (8, 0, 0));
    assert!(!pair.producer_anchor.owns_lease(&region));
    anchor.teardown(&mut region, 78);
    assert_eq!(region[5], 0);
    pair.consumer_anchor.teardown(&mut region, 77);
    let (rx, _) = BytesRingBuffer::attach_shm_consumer(&mut region, len as u64, 6, 78).unwrap();
    assert_eq!((rx.read_cursor, rx.published), (0, 0));
    let (rx, _) = BytesRingBuffer::force_attach_shm_consumer(&mut region, len as u64, 7, 78).unwrap();
    assert_eq!(rx.write_cursor_cache, 0);
    let pair = BytesRingBuffer::recover_shm(&mut region, len as u64, 8, 9, 79).unwrap();
    assert_eq!((region[5], region[6]), (8, 9));
    assert_eq!(pair.producer.write_cursor, 8);
    let (mut region, len) = fresh_region();
    assert!(RingBuffer::<u64>::attach_shm_producer(&mut region, len, 5, 1).is_ok());
    assert!(RingBuffer::<i64>::force_attach_shm_producer(&mut region, len, 5, 1).is_ok());
    assert!(RingBuffer::<u64>::force_attach_shm_consumer(&mut region, len, 5, 1).is_ok());
    assert!(RingBuffer::<u64>::recover_shm(&mut region, len, 5, 6, 1).is_ok());
    assert_eq!(
        RingBuffer::<u32>::recover_shm(&mut region, len, 5, 6, 1).err(),
        Some(ShmError::UnitSizeMismatch)
    );
}

#[test]
fn element_types_are_checked() {
    assert_eq!(check_elem_type(elem_type::<[u64; 0]>()), Err(ShmError::ZeroSized));
    assert_eq!(check_elem_type(ElemType { size: 256, align: 256 }), Err(ShmError::Overaligned));
    assert_eq!(check_elem_type(elem_type::<u8>()), Ok(()));
    assert_eq!(check_slot_type(elem_type::<u8>()), Ok(16));
    assert_eq!(check_slot_type(elem_type::<[u64; 4]>()), Ok(40));
    assert_eq!(check_slot_type(ElemType { size: 0, align: 1 }), Err(ShmError::ZeroSized));
    assert_eq!(check_slot_type(ElemType { size: 8, align: 256 }), Err(ShmError::Overaligned));
    assert_eq!(check_slot_type(ElemType { size: usize::MAX, align: 8 }), Err(ShmError::CapacityOverflow));
    let mut none: Vec<u64> = Vec::new();
    assert_eq!(
        RingBuffer::<[u8; 0]>::create_shm(&mut none, 8, 1, 2, 3).err(),
        Some(ShmError::ZeroSized)
    );
}

#[test]
fn control_words() {
    let w = control_word(7, STATE_RETIRED);
    assert_eq!(w, (7 << 32) | 2);
    assert_eq!(control_epoch(w), 7);
    assert_eq!(control_state(w), STATE_RETIRED);
    assert!(!control_is_active(w));
    assert!(control_is_active(control_word(u32::MAX, STATE_ACTIVE)));
}

#[test]
fn slots_are_claimed_released_and_retired() {
    let len = spmc_region_len(8, 8, 2).unwrap();
    let mut region = words(len);
    create_spmc_region(&mut region, KIND_SPMC_ELEMS, 8, 8, 2, 5).unwrap();
    region[16] = 6;
    let generation = region[7];
    let a = claim_table_slot(&mut region, 384, 2, 101).unwrap();
    assert_eq!((a.slot, a.epoch, a.joined, a.token), (0, 1, 6, 101));
    assert_eq!((region[48], region[49], region[50]), (101, control_word(1, STATE_ACTIVE), 6));
    let b = claim_table_slot(&mut region, 384, 2, 102).unwrap();
    assert_eq!(b.slot, 1);
    assert!(claim_table_slot(&mut region, 384, 2, 103).is_none());
    release_table_claim(&mut region, 384, 2, &a, generation + 2);
    assert_eq!(region[48], 101);
    release_table_claim(&mut region, 384, 2, &a, generation);
    assert_eq!((region[48], region[49], region[50]), (0, control_word(1, STATE_FREE), DETACHED));
    let c = claim_table_slot(&mut region, 384, 2, 104).unwrap();
    assert_eq!((c.slot, c.epoch), (0, 2));
    assert_eq!(force_detach_table_slot(&mut region, 384, 2, 0, 1), Err(ShmError::EpochMismatch));
    assert_eq!(force_detach_table_slot(&mut region, 384, 2, 0, 2), Ok(()));
    assert_eq!(region[49], control_word(3, STATE_RETIRED));
    assert!(claim_table_slot(&mut region, 384, 2, 105).is_none());
    region[16] = 10;
    region[50] = 1;
    assert_eq!(reset_gate_table(&mut region, 384, 2, 8), 6);
    assert_eq!(region[7], generation + 2);
    assert_eq!((region[48], region[49], region[50]), (0, control_word(4, STATE_FREE), DETACHED));
    assert_eq!((region[64], region[65], region[66]), (0, control_word(2, STATE_FREE), DETACHED));
    assert_eq!(reset_gate_table(&mut region, 384, 2, 8), 10);
}

#[test]
fn gating_rings_over_regions() {
    let len = spmc_region_len(4, 8, 2).unwrap();
    let mut region = words(len);
    let handles = spmc::RingBuffer::<u64>::create_shm(&mut region, 4, 2, 9, 10, 1).unwrap();
    assert_eq!(handles.consumer_side.slot(), 0);
    assert_eq!(handles.consumer_side.epoch(), 1);
    assert_eq!(handles.producer_side.active_count(&region), 1);
    let mut tx = handles.producer;
    assert!(tx.rescan_shm(&region, &handles.producer_side, 1));
    tx.publish_shm(&mut region, &handles.producer_side, 3);
    assert_eq!(region[16], 3);
    let (second, second_side) =
        spmc::RingBuffer::<u64>::attach_shm_consumer(&mut region, len as u64, 11, 2).unwrap();
    assert_eq!(second.read_cursor, 3);
    assert_eq!(second.slot.slot_idx, 1);
    assert_eq!(
        spmc::RingBuffer::<u64>::attach_shm_consumer(&mut region, len as u64, 12, 2).err(),
        Some(ShmError::ConsumerTableFull)
    );
    assert!(!tx.rescan_shm(&region, &handles.producer_side, 2));
    let mut rx = handles.consumer;
    assert_eq!(rx.refresh_shm(&region, &handles.consumer_side), 3);
    rx.read_cursor = 2;
    rx.flush_shm(&mut region, &handles.consumer_side);
    assert_eq!(region[50], 2);
    assert!(tx.rescan_shm(&region, &handles.producer_side, 2));
    assert_eq!(
        spmc::RingBuffer::<u64>::force_detach_consumer(&mut region, len as u64, 2, 1).err(),
        Some(ShmError::ConsumerSlotOutOfRange)
    );
    assert_eq!(
        spmc::RingBuffer::<u64>::force_detach_consumer(&mut region, len as u64, 0, 1),
        Ok(())
    );
    second_side.teardown(&mut region, 3);
    assert_eq!(handles.producer_side.active_count(&region), 1);
    second_side.teardown(&mut region, 2);
    assert_eq!(handles.producer_side.active_count(&region), 0);
    assert_eq!(
        spmc::RingBuffer::<u64>::attach_shm_producer(&mut region, len as u64, 20, 2).err(),
        Some(ShmError::RoleHeld)
    );
    handles.producer_side.teardown(&mut region, 1);
    assert_eq!((region[5], region[17]), (0, 1));
    assert_eq!(
        spmc::RingBuffer::<u64>::attach_shm_consumer(&mut region, len as u64, 12, 2).err(),
        Some(ShmError::Closed)
    );
    let (tx, side, floor) =
        spmc::RingBuffer::<u64>::attach_shm_producer(&mut region, len as u64, 20, 2).unwrap();
    assert_eq!((tx.next_seq, region[17], floor), (3, 0, 0));
    assert!(side.owns_lease(&region));
    let (recovered, _) =
        spmc::RingBuffer::<u64>::recover_shm(&mut region, len as u64, 30, 31, 3).unwrap();
    assert_eq!(recovered.consumer.read_cursor, 2);
    assert_eq!(region[50], 2);
    assert_eq!(recovered.producer.next_seq, 3);
    let (_, side, _) =
        spmc::RingBuffer::<u64>::force_attach_shm_producer(&mut region, len as u64, 40, 3).unwrap();
    assert!(side.owned_by(3));
}

#[test]
fn gating_byte_rings_over_regions() {
    let len = spmc_region_len(8, 1, 1).unwrap();
    let mut region = words(len);
    let handles = spmc_bytes::BytesRingBuffer::create_shm(&mut region, 1, 1, 9, 10, 1).unwrap();
    assert_eq!(handles.producer.mask, 7);
    region[18] = 5;
    assert!(spmc_bytes::BytesRingBuffer::force_attach_shm_producer(&mut region, len as u64, 11, 1).is_ok());
    assert_eq!(region[18], 0);
    handles.consumer_side.teardown(&mut region, 1);
    assert!(spmc_bytes::BytesRingBuffer::attach_shm_consumer(&mut region, len as u64, 12, 1).is_ok());
    assert!(spmc_bytes::BytesRingBuffer::force_detach_consumer(&mut region, len as u64, 0, 2).is_ok());
    assert!(spmc_bytes::BytesRingBuffer::recover_shm(&mut region, len as u64, 13, 14, 1).is_ok());
    assert_eq!(
        spmc_bytes::BytesRingBuffer::attach_shm_producer(&mut region, len as u64, 15, 1).err(),
        Some(ShmError::RoleHeld)
    );
    assert_eq!(
        spmc_bytes::BytesRingBuffer::create_shm(&mut region, 1, 0, 9, 10, 1).err(),
        Some(ShmError::NoConsumerSlots)
    );
}

#[test]
fn elements_over_a_region() {
    type Ring = broadcast::RingBuffer<[u64; 2]>;
    let elem = elem_type::<[u64; 2]>();
    let g = slot_geometry(elem, 4, BUFFER_OFFSET).unwrap();
    assert_eq!((g.base, g.stride, g.payload, g.words, g.mask), (48, 3, 1, 2, 3));
    let len = bcast_region_len(4, 24, BUFFER_OFFSET).unwrap();
    let mut region = words(len);
    let (mut tx, side) = Ring::create_shm(&mut region, 4, 9, 1).unwrap();
    let mut rx = Ring::attach_shm_consumer(&region, len as u64).unwrap();
    assert_eq!(rx.slack, 1);
    assert_eq!(rx.try_pop_shm(&region, &g), Ok(None));
    for i in 0..4 {
        tx.push_shm(&mut region, &g, &[i, i + 100]);
    }
    for i in 0..2 {
        assert_eq!(rx.try_pop_shm(&region, &g), Ok(Some(vec![i, i + 100])));
    }
    for i in 4..10 {
        tx.push_shm(&mut region, &g, &[i, i + 100]);
    }
    assert_eq!(rx.try_pop_shm(&region, &g), Err(broadcast::PopError::Lagged { missed: 5 }));
    assert_eq!(rx.try_pop_shm(&region, &g), Ok(Some(vec![7, 107])));
    let slot = g.base + 3 * (10 % 4);
    region[slot] = 2 * 10 + 1;
    region[slot + 1] = 0xbad;
    let (mut next, next_side) = Ring::force_attach_shm_producer(&mut region, len as u64, 19, 2).unwrap();
    assert_eq!(next.next_seq, 10);
    next.push_shm(&mut region, &g, &[10, 110]);
    side.teardown(&mut region, 1, tx.tail());
    assert!(next_side.owns_lease(&region));
    for i in 8..11 {
        assert_eq!(rx.try_pop_shm(&region, &g), Ok(Some(vec![i, i + 100])));
    }
    next_side.teardown(&mut region, 2, next.tail());
    assert_eq!(rx.try_pop_shm(&region, &g), Err(broadcast::PopError::Closed));
    assert!(Ring::attach_shm_producer(&mut region, len as u64, 20, 2).is_ok());
    assert_eq!(rx.try_pop_shm(&region, &g), Ok(None));
    assert_eq!(
        Ring::attach_shm_producer(&mut region, len as u64, 21, 2).err(),
        Some(ShmError::RoleHeld)
    );
    assert!(Ring::recover_shm(&mut region, len as u64, 22, 2).is_ok());
    assert_eq!(
        Ring::create_shm_with_slack(&mut region, 4, 4, 9, 1).err(),
        Some(ShmError::SlackTooLarge)
    );
    assert_eq!(
        broadcast::RingBuffer::<u128>::attach_shm_consumer(&region, len as u64).err(),
        Some(ShmError::StrideMismatch)
    );
}

#[test]
fn bytes_over_a_region() {
    type Ring = broadcast_bytes::BytesRingBuffer;
    let len = bcast_region_len(64, 1, BCAST_BYTES_BUFFER_OFFSET).unwrap();
    let mut region = words(len);
    let (mut tx, side) = Ring::create_shm(&mut region, 64, 9, 1).unwrap();
    let mut rx = Ring::attach_shm_consumer(&region, len as u64).unwrap();
    let mut out = Vec::new();
    for i in 0..40usize {
        let msg: Vec<u8> = (0..i % 9).map(|b| (b * 3 + i) as u8).collect();
        tx.push_shm(&mut region, 64, &msg);
        assert_eq!(rx.try_pop_shm(&region, 64, &mut out), Ok(true));
        assert_eq!(out, msg);
    }
    assert_eq!(rx.try_pop_shm(&region, 64, &mut out), Ok(false));
    let start = rx.pos;
    for _ in 0..20 {
        tx.push_shm(&mut region, 64, b"abcdefgh");
    }
    let missed = match rx.try_pop_shm(&region, 64, &mut out) {
        Err(broadcast_bytes::PopError::Lagged { missed_bytes }) => missed_bytes,
        other => panic!("{other:?}"),
    };
    assert_eq!(start + missed, region[48]);
    assert_eq!(rx.try_pop_shm(&region, 64, &mut out), Ok(true));
    assert_eq!(out, b"abcdefgh");
    let tail = tx.tail();
    region[32] = tail + 24;
    region[48] = tail + 8;
    let (mut next, _) = Ring::force_attach_shm_producer(&mut region, len as u64, 12, 2).unwrap();
    assert_eq!(next.intent_floor, tail + 24);
    assert_eq!(region[48], tail);
    next.push_shm(&mut region, 64, b"x");
    assert_eq!(region[32], tail + 24);
    assert_eq!(rx.try_pop_shm(&region, 64, &mut out), Ok(true));
    assert_eq!(out, b"x");
    side.teardown(&mut region, 1, 0);
    assert_eq!(region[16], next.tail());
    let (last, last_side) = Ring::recover_shm(&mut region, len as u64, 13, 3).unwrap();
    last_side.teardown(&mut region, 3, last.tail());
    assert_eq!(
        rx.try_pop_shm(&region, 64, &mut out),
        Err(broadcast_bytes::PopError::Closed)
    );
    assert!(Ring::attach_shm_producer(&mut region, len as u64, 14, 3).is_ok());
    assert_eq!(
        open_bcast_region(&region, len as u64, KIND_BCAST_BYTES, 1, 1, 512, 8, 8).map(|o| o.capacity),
        Ok(64)
    );
}

#[test]
fn anchored_bytes_over_a_region() {
    type Ring = anchored_bytes::BytesRingBuffer;
    let len = anch_region_len(64, 1, ANCH_BYTES_TABLE_OFFSET, 2).unwrap();
    let base = 64 + 32;
    let mut region = words(len);
    let handles = Ring::create_shm(&mut region, 64, 2, 9, 10, 1).unwrap();
    let mut tx = anchored_bytes::BytesProducer {
        core: handles.producer,
        raised_starving: false,
        intent_floor: 0,
    };
    let mut anchor = anchored_bytes::BytesAnchor {
        core: handles.consumer,
        shm: Some((handles.consumer_side.slot(), handles.consumer_side.epoch())),
    };
    assert_eq!(anchor.shm_slot_epoch(), Some((0, 1)));
    assert_eq!(anchor.shm_slot(), Some(0));
    let mut observer = Ring::attach_shm_observer(&region, len as u64).unwrap();
    let mut out = Vec::new();
    for i in 0..60usize {
        let msg: Vec<u8> = (0..i % 9).map(|b| (b * 5 + i) as u8).collect();
        assert!(tx.try_push_shm(&mut region, &handles.producer_side, base, &msg));
        assert_eq!(
            anchor.try_pop_shm(&mut region, &handles.consumer_side, base),
            Ok(Some(msg.clone()))
        );
        assert_eq!(observer.try_pop_shm(&region, base, &mut out), Ok(true));
        assert_eq!(out, msg);
    }
    assert_eq!(anchor.try_pop_shm(&mut region, &handles.consumer_side, base), Ok(None));
    let mut sent = 0;
    while tx.try_push_shm(&mut region, &handles.producer_side, base, b"12345678") {
        sent += 1;
    }
    assert!(sent >= 3);
    assert_ne!(region[18], 0);
    assert!(anchor.try_pop_shm(&mut region, &handles.consumer_side, base).unwrap().is_some());
    assert!(anchor.try_pop_shm(&mut region, &handles.consumer_side, base).unwrap().is_some());
    assert!(tx.try_push_shm(&mut region, &handles.producer_side, base, b"z"));
    let opened = GateOpened {
        capacity: 64,
        max_slots: 2,
        table_offset: ANCH_BYTES_TABLE_OFFSET,
        generation: region[7],
    };
    let (second, second_side) = shm_subscribe_anchor(&mut region, opened, 50, 1).unwrap();
    assert_eq!(second.read_cursor, region[16]);
    assert_eq!(shm_subscribe_anchor(&mut region, opened, 51, 1).err(), Some(spmc::SubscribeError::Full));
    assert_eq!(
        Ring::attach_shm_anchor(&mut region, len as u64, 52, 1).err(),
        Some(ShmError::AnchorTableFull)
    );
    assert_eq!(
        Ring::force_detach_anchor(&mut region, len as u64, 9, 1).err(),
        Some(ShmError::AnchorSlotOutOfRange)
    );
    assert!(Ring::force_detach_anchor(&mut region, len as u64, 1, second_side.epoch()).is_ok());
    handles.producer_side.teardown(&mut region, 1);
    assert_eq!(shm_subscribe_anchor(&mut region, opened, 53, 1).err(), Some(spmc::SubscribeError::Closed));
    let tail = region[16];
    region[32] = tail + 16;
    region[18] = 16;
    let (_, _, floor) = Ring::attach_shm_producer(&mut region, len as u64, 60, 2).unwrap();
    assert_eq!((floor, region[18], region[48]), (tail + 16, 0, tail));
    let (_, _, floor) = Ring::force_attach_shm_producer(&mut region, len as u64, 61, 2).unwrap();
    assert_eq!(floor, tail + 16);
    let published = region[66];
    let (recovered, floor) = Ring::recover_shm(&mut region, len as u64, 62, 63, 3).unwrap();
    assert_eq!(floor, tail + 16);
    assert_eq!(recovered.consumer.read_cursor, published);
    assert_eq!(
        anchor.try_pop_shm(&mut region, &recovered.consumer_side, base).is_ok(),
        true
    );
}

#[test]
fn anchored_elements_over_a_region() {
    type Ring = anchored::RingBuffer<u64>;
    let len = anch_region_len(8, 16, ANCH_ELEMS_TABLE_OFFSET, 3).unwrap();
    let mut region = words(len);
    let handles = Ring::create_shm(&mut region, 8, 3, 9, 10, 1).unwrap();
    assert_eq!(region[18], 1);
    assert_eq!(region[19], 16);
    assert_eq!(Ring::attach_shm_observer(&region, len as u64).unwrap().slack, 1);
    assert!(Ring::attach_shm_anchor(&mut region, len as u64, 11, 1).is_ok());
    assert!(Ring::force_detach_anchor(&mut region, len as u64, 1, 1).is_ok());
    assert!(Ring::force_attach_shm_producer(&mut region, len as u64, 12, 1).is_ok());
    handles.producer_side.teardown(&mut region, 1);
    assert_eq!(region[5], 12);
    assert!(Ring::recover_shm(&mut region, len as u64, 13, 14, 1).is_ok());
    assert_eq!(
        Ring::attach_shm_producer(&mut region, len as u64, 15, 1).err(),
        Some(ShmError::RoleHeld)
    );
    assert!(Ring::create_shm_with_slack(&mut region, 8, 3, 0, 9, 10, 1).is_ok());
    assert_eq!(
        Ring::create_shm_with_slack(&mut region, 8, 3, 8, 9, 10, 1).err(),
        Some(ShmError::SlackTooLarge)
    );
    let mut r = region.clone();
    r[18] = 8;
    assert_eq!(
        open_anch_region(&r, len as u64, KIND_ANCH_ELEMS, 8, 16, 384, 2, 1).err(),
        Some(ShmError::CorruptSlack)
    );
}

#[test]
fn lanes_of_a_region() {
    let mut region = vec![0u64; 4];
    region_lanes::store_lane(&mut region, 1, 16, 4, 0x0403_0201);
    assert_eq!(region, [0, 0x0403_0201_0000_0000, 0, 0]);
    assert_eq!(region_lanes::load_lane(&region, 1, 16, 4), 0x0403_0201);
    region_lanes::copy_in_lanes(&[9, 8, 7, 6, 5], &mut region, 1, 16, 8);
    assert_eq!(region[2], 0x05_06_07_08_09);
    let mut out = vec![1];
    region_lanes::copy_out_lanes(&region, 1, 16, 8, &mut out, 5);
    assert_eq!(out, [1, 9, 8, 7, 6, 5]);
}

#[test]
fn errors_of_regions_in_words() {
    assert_eq!(ShmError::BadMagic.message(), "bad magic: not a rust-rb shm ring");
    assert_eq!(ShmError::BadMagic.kind(), ErrorKind::InvalidData);
    assert_eq!(ShmError::RoleHeld.kind(), ErrorKind::AddrInUse);
    assert_eq!(ShmError::AnchorTableFull.kind(), ErrorKind::AddrInUse);
    assert_eq!(ShmError::SlackTooLarge.kind(), ErrorKind::InvalidInput);
    assert_eq!(ShmError::EpochMismatch.kind(), ErrorKind::InvalidInput);
    assert_eq!(ShmError::Closed.kind(), ErrorKind::BrokenPipe);
    assert_eq!(
        ShmError::Closed.message(),
        "ring closed: producer dropped (attach a new producer to reopen)"
    );
    assert_eq!(ShmError::ZeroSized.message(), ShmError::ZeroSizedUnit.message());
}

#[test]
fn packed_elements_over_a_region() {
    for unit in [1usize, 3, 8, 12] {
        let len = spmc_region_len(4, unit, 2).unwrap();
        let mut region = words(len);
        create_spmc_region(&mut region, KIND_SPMC_ELEMS, 4, unit, 2, 5).unwrap();
        let opened = GateOpened {
            capacity: 4,
            max_slots: 2,
            table_offset: 384,
            generation: region[7],
        };
        let (core, side) = shm_subscribe_anchor(&mut region, opened, 50, 1).unwrap();
        let mut rx = spmc::Consumer { core };
        let backing = GateShmProducer { token: 5, owner_pid: 1, max_slots: 2, table_offset: 384 };
        let mut tx = spmc::Producer { core: GateProducer::from_shm(&region, &backing, 4) };
        let d = dense_geometry(unit, 4, 384, 2);
        assert_eq!((d.base, d.unit, d.mask), (48 + 32, unit, 3));
        let element = |i: usize| -> Vec<u8> { (0..unit).map(|b| (b * 7 + i * 31) as u8).collect() };
        assert_eq!(rx.try_pop_shm(&mut region, &side, &d), Ok(None));
        for i in 0..4 {
            assert!(tx.try_push_shm(&mut region, &backing, &d, &element(i)));
        }
        let full = region.clone();
        assert!(!tx.try_push_shm(&mut region, &backing, &d, &element(9)));
        assert_eq!(region, full);
        for i in 4..30 {
            assert_eq!(rx.try_pop_shm(&mut region, &side, &d), Ok(Some(element(i - 4))));
            assert!(tx.try_push_shm(&mut region, &backing, &d, &element(i)));
        }
        for i in 26..30 {
            assert_eq!(rx.try_pop_shm(&mut region, &side, &d), Ok(Some(element(i))));
        }
        assert_eq!(region[50], 30);
        backing.teardown(&mut region, 1);
        assert_eq!(rx.try_pop_shm(&mut region, &side, &d), Err(spmc::Closed));
    }
}

#[test]
fn anchored_elements_are_delivered_over_a_region() {
    type Ring = anchored::RingBuffer<[u64; 2]>;
    let elem = elem_type::<[u64; 2]>();
    let len = anch_region_len(4, 24, ANCH_ELEMS_TABLE_OFFSET, 1).unwrap();
    let mut region = words(len);
    let handles = Ring::create_shm(&mut region, 4, 1, 9, 10, 1).unwrap();
    let g = slot_geometry(elem, 4, ANCH_ELEMS_TABLE_OFFSET + 128).unwrap();
    let mut tx = anchored::Producer { core: handles.producer };
    let mut rx = anchored::Anchor { core: handles.consumer };
    let mut observer = Ring::attach_shm_observer(&region, len as u64).unwrap();
    for i in 0..4 {
        assert!(tx.try_push_shm(&mut region, &handles.producer_side, &g, &[i, i + 50]));
    }
    assert!(!tx.try_push_shm(&mut region, &handles.producer_side, &g, &[9, 9]));
    for i in 4..20u64 {
        let old = i - 4;
        assert_eq!(
            rx.try_pop_shm(&mut region, &handles.consumer_side, &g),
            Ok(Some(vec![old, old + 50]))
        );
        assert!(tx.try_push_shm(&mut region, &handles.producer_side, &g, &[i, i + 50]));
    }
    assert_eq!(
        observer.try_pop_shm(&region, &g),
        Err(broadcast::PopError::Lagged { missed: 17 })
    );
    assert_eq!(observer.try_pop_shm(&region, &g), Ok(Some(vec![17, 67])));
    for i in 16..20u64 {
        assert_eq!(
            rx.try_pop_shm(&mut region, &handles.consumer_side, &g),
            Ok(Some(vec![i, i + 50]))
        );
    }
    assert_eq!(rx.try_pop_shm(&mut region, &handles.consumer_side, &g), Ok(None));
    handles.producer_side.teardown(&mut region, 1);
    assert_eq!(rx.try_pop_shm(&mut region, &handles.consumer_side, &g), Err(spmc::Closed));
}

#[test]
fn bytes_of_a_region() {
    let mut region = vec![0x1122_3344_5566_7788u64; 3];
    region_lanes::store_byte(&mut region, 1, 5, 0xee);
    assert_eq!(region, [0x1122_3344_5566_7788, 0x1122_ee44_5566_7788, 0x1122_3344_5566_7788]);
    assert_eq!(region_lanes::load_byte(&region, 1, 5), 0xee);
    assert_eq!(region_lanes::load_byte(&region, 1, 8), 0x88);
    assert_eq!(region_lanes::load_byte(&region, 0, 7), 0x11);
    copy_in_words(&[1, 2], &mut region, 1);
    assert_eq!(region, [0x1122_3344_5566_7788, 1, 2]);
    assert_eq!(copy_out_words(&region, 1, 2), [1, 2]);
}
