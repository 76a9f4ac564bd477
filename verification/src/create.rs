//! Making a ring in a region.
//!
//! The generation is odd while a region is being initialised, and another even
//! number afterwards, so that whoever reads the header meanwhile can tell.

use crate::region::{
    anch_region_len, bcast_region_len, close_generation, closed_generation, detach_cursors,
    detached_table, layout_len, len_ok, len_result, open_generation, pack, packed, region_len,
    spmc_region_len, store_u64, table_fits, words_for, zero_from, ShmError, BUFFER_OFFSET, MAGIC,
    OFF_ARCH_BITS, OFF_AUX, OFF_CAPACITY, OFF_CLOSED, OFF_CONSUMER_LEASE, OFF_MAGIC,
    OFF_PRODUCER_LEASE, OFF_READ_CURSOR, OFF_STARVING, OFF_STRIDE, OFF_UNIT_SIZE, OFF_VERSION,
    OFF_WRITE_CURSOR, SPMC_TABLE_OFFSET, VERSION,
};
use crate::registry::DETACHED;
use vstd::prelude::*;

verus! {

/// The words of the header that every ring has.
pub open spec fn header_word(
    before: Seq<u64>,
    i: int,
    kind: u32,
    capacity: usize,
    unit_size: usize,
    max_slots: usize,
    producer: u64,
    consumer: u64,
) -> u64 {
    if i == 0 {
        MAGIC
    } else if i == 1 {
        packed(VERSION, kind)
    } else if i == 2 {
        capacity as u64
    } else if i == 3 {
        unit_size as u64
    } else if i == 4 {
        packed(usize::BITS, max_slots as u32)
    } else if i == 5 {
        producer
    } else if i == 6 {
        consumer
    } else if i == 7 {
        closed_generation(before[7])
    } else {
        before[i]
    }
}

/// Write the header that every ring has, but for the magic and the generation.
fn write_header(
    region: &mut [u64],
    kind: u32,
    capacity: usize,
    unit_size: usize,
    max_slots: usize,
    producer: u64,
    consumer: u64,
)
    requires
        old(region)@.len() >= 48,
        max_slots <= u32::MAX,
    ensures
        final(region)@.len() == old(region)@.len(),
        forall|i: int|
            0 <= i < old(region)@.len() ==> #[trigger] final(region)@[i] == (if i == 0 {
                0
            } else if i == 7 {
                old(region)@[7]
            } else {
                header_word(
                    old(region)@,
                    i,
                    kind,
                    capacity,
                    unit_size,
                    max_slots,
                    producer,
                    consumer,
                )
            }),
{
    store_u64(region, OFF_MAGIC, 0);
    let version_and_kind: u64 = pack(VERSION, kind);
    store_u64(region, OFF_VERSION, version_and_kind);
    store_u64(region, OFF_CAPACITY, capacity as u64);
    store_u64(region, OFF_UNIT_SIZE, unit_size as u64);
    let arch_and_slots: u64 = pack(usize::BITS, max_slots as u32);
    store_u64(region, OFF_ARCH_BITS, arch_and_slots);
    store_u64(region, OFF_PRODUCER_LEASE, producer);
    store_u64(region, OFF_CONSUMER_LEASE, consumer);
}

/// A fresh two-party ring in a region.
pub open spec fn pair_region(
    before: Seq<u64>,
    kind: u32,
    capacity: usize,
    unit_size: usize,
    producer: u64,
    consumer: u64,
) -> Seq<u64> {
    Seq::new(
        before.len(),
        |i: int|
            if i >= 48 || i == 16 || i == 19 || i == 32 || i == 33 {
                0
            } else {
                header_word(before, i, kind, capacity, unit_size, 0, producer, consumer)
            },
    )
}

/// Make a two-party ring in a region: header, cursors at zero, both leases
/// taken, buffer zeroed.
pub fn create_region(
    region: &mut [u64],
    kind: u32,
    capacity: usize,
    unit_size: usize,
    producer: u64,
    consumer: u64,
) -> (r: Result<(), ShmError>)
    requires
        ({
            let len = layout_len(capacity as int, unit_size as int, BUFFER_OFFSET as int, 0);
            len_ok(len) ==> old(region)@.len() == words_for(len)
        }),
    ensures
        ({
            let len = layout_len(capacity as int, unit_size as int, BUFFER_OFFSET as int, 0);
            match r {
                Ok(()) => len_ok(len) && final(region)@ == pair_region(
                    old(region)@,
                    kind,
                    capacity,
                    unit_size,
                    producer,
                    consumer,
                ),
                Err(e) => len_result(len) == Err::<usize, ShmError>(e) && final(region)@ == old(
                    region,
                )@,
            }
        }),
{
    proof {
        assert(capacity * unit_size >= 0) by (nonlinear_arith)
            requires
                capacity >= 0,
                unit_size >= 0,
        ;
    }
    match region_len(capacity, unit_size) {
        Ok(len) => {},
        Err(e) => return Err(e),
    }
    let g: u64 = open_generation(region);
    write_header(region, kind, capacity, unit_size, 0, producer, consumer);
    store_u64(region, OFF_WRITE_CURSOR, 0);
    store_u64(region, OFF_READ_CURSOR, 0);
    store_u64(region, OFF_STARVING, 0);
    store_u64(region, OFF_STRIDE, 0);
    store_u64(region, OFF_MAGIC, MAGIC);
    close_generation(region, g);
    zero_from(region, BUFFER_OFFSET / 8);
    proof {
        assert(region@ =~= pair_region(
            old(region)@,
            kind,
            capacity,
            unit_size,
            producer,
            consumer,
        ));
    }
    Ok(())
}

/// A fresh gating ring in a region.
pub open spec fn gating_region(
    before: Seq<u64>,
    kind: u32,
    capacity: usize,
    unit_size: usize,
    max_consumers: usize,
    producer: u64,
) -> Seq<u64> {
    Seq::new(
        before.len(),
        |i: int|
            if detached_table(i, SPMC_TABLE_OFFSET as int, max_consumers as int) {
                DETACHED
            } else if i >= 48 || 16 <= i < 20 {
                0
            } else {
                header_word(before, i, kind, capacity, unit_size, max_consumers, producer, 0)
            },
    )
}

/// Make a gating ring in a region: header, cursor at zero, the producer lease
/// taken, a table of free slots, buffer zeroed.
pub fn create_spmc_region(
    region: &mut [u64],
    kind: u32,
    capacity: usize,
    unit_size: usize,
    max_consumers: usize,
    producer: u64,
) -> (r: Result<(), ShmError>)
    requires
        ({
            let len = layout_len(
                capacity as int,
                unit_size as int,
                SPMC_TABLE_OFFSET as int,
                max_consumers as int,
            );
            len_ok(len) ==> old(region)@.len() == words_for(len)
        }),
    ensures
        ({
            let len = layout_len(
                capacity as int,
                unit_size as int,
                SPMC_TABLE_OFFSET as int,
                max_consumers as int,
            );
            match r {
                Ok(()) => {
                    &&& 1 <= max_consumers <= u32::MAX
                    &&& len_ok(len)
                    &&& final(region)@ == gating_region(
                        old(region)@,
                        kind,
                        capacity,
                        unit_size,
                        max_consumers,
                        producer,
                    )
                    &&& table_fits(
                        final(region)@,
                        SPMC_TABLE_OFFSET as int,
                        max_consumers as int,
                    )
                },
                Err(e) => {
                    &&& final(region)@ == old(region)@
                    &&& Err::<usize, ShmError>(e) == (if max_consumers == 0 {
                        Err(ShmError::NoConsumerSlots)
                    } else if max_consumers > u32::MAX {
                        Err(ShmError::TooManyConsumerSlots)
                    } else {
                        len_result(len)
                    })
                },
            }
        }),
{
    if max_consumers == 0 {
        return Err(ShmError::NoConsumerSlots);
    }
    if max_consumers as u64 > u32::MAX as u64 {
        return Err(ShmError::TooManyConsumerSlots);
    }
    proof {
        assert(capacity * unit_size >= 0) by (nonlinear_arith)
            requires
                capacity >= 0,
                unit_size >= 0,
        ;
    }
    match spmc_region_len(capacity, unit_size, max_consumers) {
        Ok(len) => {},
        Err(e) => return Err(e),
    }
    let g: u64 = open_generation(region);
    write_header(region, kind, capacity, unit_size, max_consumers, producer, 0);
    store_u64(region, OFF_WRITE_CURSOR, 0);
    store_u64(region, OFF_CLOSED, 0);
    store_u64(region, OFF_AUX, 0);
    store_u64(region, OFF_STRIDE, 0);
    zero_from(region, SPMC_TABLE_OFFSET / 8);
    detach_cursors(region, SPMC_TABLE_OFFSET, max_consumers);
    store_u64(region, OFF_MAGIC, MAGIC);
    close_generation(region, g);
    proof {
        assert(region@ =~= gating_region(
            old(region)@,
            kind,
            capacity,
            unit_size,
            max_consumers,
            producer,
        ));
    }
    Ok(())
}

/// A fresh lossy ring in a region.
pub open spec fn lossy_region(
    before: Seq<u64>,
    kind: u32,
    capacity: usize,
    unit_size: usize,
    stride: usize,
    slack: u64,
    producer: u64,
) -> Seq<u64> {
    Seq::new(
        before.len(),
        |i: int|
            if i == 18 {
                slack
            } else if i == 19 {
                stride as u64
            } else if i >= 16 {
                0
            } else {
                header_word(before, i, kind, capacity, unit_size, 0, producer, 0)
            },
    )
}

/// Make a lossy ring in a region: header, counters at zero, slack and stride,
/// the producer lease taken, buffer zeroed.
pub fn create_bcast_region(
    region: &mut [u64],
    kind: u32,
    capacity: usize,
    unit_size: usize,
    stride: usize,
    buffer_offset: usize,
    slack: u64,
    producer: u64,
) -> (r: Result<(), ShmError>)
    requires
        buffer_offset >= BUFFER_OFFSET,
        ({
            let len = layout_len(capacity as int, stride as int, buffer_offset as int, 0);
            len_ok(len) ==> old(region)@.len() == words_for(len)
        }),
    ensures
        ({
            let len = layout_len(capacity as int, stride as int, buffer_offset as int, 0);
            match r {
                Ok(()) => len_ok(len) && final(region)@ == lossy_region(
                    old(region)@,
                    kind,
                    capacity,
                    unit_size,
                    stride,
                    slack,
                    producer,
                ),
                Err(e) => len_result(len) == Err::<usize, ShmError>(e) && final(region)@ == old(
                    region,
                )@,
            }
        }),
{
    proof {
        assert(capacity * stride >= 0) by (nonlinear_arith)
            requires
                capacity >= 0,
                stride >= 0,
        ;
    }
    match bcast_region_len(capacity, stride, buffer_offset) {
        Ok(len) => {},
        Err(e) => return Err(e),
    }
    let g: u64 = open_generation(region);
    write_header(region, kind, capacity, unit_size, 0, producer, 0);
    zero_from(region, OFF_WRITE_CURSOR / 8);
    store_u64(region, OFF_AUX, slack);
    store_u64(region, OFF_STRIDE, stride as u64);
    store_u64(region, OFF_MAGIC, MAGIC);
    close_generation(region, g);
    proof {
        assert(region@ =~= lossy_region(
            old(region)@,
            kind,
            capacity,
            unit_size,
            stride,
            slack,
            producer,
        ));
    }
    Ok(())
}

/// A fresh anchored ring in a region.
pub open spec fn anchored_region(
    before: Seq<u64>,
    kind: u32,
    capacity: usize,
    unit_size: usize,
    stride: usize,
    table_offset: usize,
    max_anchors: usize,
    slack: u64,
    producer: u64,
) -> Seq<u64> {
    Seq::new(
        before.len(),
        |i: int|
            if detached_table(i, table_offset as int, max_anchors as int) {
                DETACHED
            } else if i == 18 {
                slack
            } else if i == 19 {
                stride as u64
            } else if i >= 16 {
                0
            } else {
                header_word(before, i, kind, capacity, unit_size, max_anchors, producer, 0)
            },
    )
}

/// Make an anchored ring in a region: header, counters at zero, slack and
/// stride, the producer lease taken, a table of free slots, buffer zeroed.
pub fn create_anch_region(
    region: &mut [u64],
    kind: u32,
    capacity: usize,
    unit_size: usize,
    stride: usize,
    table_offset: usize,
    max_anchors: usize,
    slack: u64,
    producer: u64,
) -> (r: Result<(), ShmError>)
    requires
        table_offset % 8 == 0,
        table_offset >= BUFFER_OFFSET,
        ({
            let len = layout_len(
                capacity as int,
                stride as int,
                table_offset as int,
                max_anchors as int,
            );
            len_ok(len) ==> old(region)@.len() == words_for(len)
        }),
    ensures
        ({
            let len = layout_len(
                capacity as int,
                stride as int,
                table_offset as int,
                max_anchors as int,
            );
            match r {
                Ok(()) => {
                    &&& 1 <= max_anchors <= u32::MAX
                    &&& len_ok(len)
                    &&& final(region)@ == anchored_region(
                        old(region)@,
                        kind,
                        capacity,
                        unit_size,
                        stride,
                        table_offset,
                        max_anchors,
                        slack,
                        producer,
                    )
                    &&& table_fits(final(region)@, table_offset as int, max_anchors as int)
                },
                Err(e) => {
                    &&& final(region)@ == old(region)@
                    &&& Err::<usize, ShmError>(e) == (if max_anchors == 0 {
                        Err(ShmError::NoAnchorSlots)
                    } else if max_anchors > u32::MAX {
                        Err(ShmError::TooManyAnchorSlots)
                    } else {
                        len_result(len)
                    })
                },
            }
        }),
{
    if max_anchors == 0 {
        return Err(ShmError::NoAnchorSlots);
    }
    if max_anchors as u64 > u32::MAX as u64 {
        return Err(ShmError::TooManyAnchorSlots);
    }
    proof {
        assert(capacity * stride >= 0) by (nonlinear_arith)
            requires
                capacity >= 0,
                stride >= 0,
        ;
    }
    match anch_region_len(capacity, stride, table_offset, max_anchors) {
        Ok(len) => {},
        Err(e) => return Err(e),
    }
    let g: u64 = open_generation(region);
    write_header(region, kind, capacity, unit_size, max_anchors, producer, 0);
    zero_from(region, OFF_WRITE_CURSOR / 8);
    store_u64(region, OFF_AUX, slack);
    store_u64(region, OFF_STRIDE, stride as u64);
    detach_cursors(region, table_offset, max_anchors);
    store_u64(region, OFF_MAGIC, MAGIC);
    close_generation(region, g);
    proof {
        assert(region@ =~= anchored_region(
            old(region)@,
            kind,
            capacity,
            unit_size,
            stride,
            table_offset,
            max_anchors,
            slack,
            producer,
        ));
    }
    Ok(())
}

} // verus!
