//! Validating the region of a ring.
//!
//! Whoever attaches looks at the generation first, reads the header, maps the
//! whole region, looks at the counters and then at the generation again: a
//! region that was re-initialised meanwhile is refused, so that nobody acts on
//! a mixture of an old and a new header. The parts before and after the mapping
//! stand here one by one, and composed for a region that is at hand as a whole.
//! The checks catch accidents: another file, another kind of ring, another
//! architecture, corrupted counters.

use crate::arith::{lag_usize, power_of_two};
use crate::region::{
    anch_region_len, bcast_region_len, half, layout_len, len_ok, len_result, read_u32, read_u64,
    region_len, spmc_region_len, table_fits, word, words_for, ShmError, BUFFER_OFFSET,
    KIND_ANCH_ELEMS, MAGIC, OFF_ARCH_BITS, OFF_AUX, OFF_CAPACITY, OFF_GENERATION, OFF_KIND,
    OFF_MAGIC, OFF_MAX_CONSUMERS, OFF_READ_CURSOR, OFF_STRIDE, OFF_UNIT_SIZE, OFF_VERSION,
    OFF_WRITE_CURSOR, SPMC_TABLE_OFFSET, VERSION,
};
use vstd::arithmetic::power2::is_pow2;
use vstd::prelude::*;

verus! {

/// A word as a machine word.
pub open spec fn truncated(w: u64) -> usize {
    (w & (usize::MAX as u64)) as usize
}

/// A word as a machine word.
pub fn truncate(w: u64) -> (r: usize)
    ensures
        r == truncated(w),
{
    (w & (usize::MAX as u64)) as usize
}

/// What is wrong with the header that every ring has; the checks come in this
/// order.
pub open spec fn header_fault(
    header: Seq<u64>,
    file_len: u64,
    kind: u32,
    unit_size: usize,
    min_capacity: usize,
    wrong_kind: ShmError,
) -> Option<ShmError> {
    let capacity = truncated(word(header, OFF_CAPACITY as int));
    if file_len < BUFFER_OFFSET {
        Some(ShmError::TooSmall)
    } else if word(header, OFF_GENERATION as int) % 2 == 1 {
        Some(ShmError::Initializing)
    } else if word(header, OFF_MAGIC as int) != MAGIC {
        Some(ShmError::BadMagic)
    } else if half(header, OFF_VERSION as int) != VERSION {
        Some(ShmError::BadVersion)
    } else if half(header, OFF_KIND as int) != kind {
        Some(wrong_kind)
    } else if unit_size == 0 {
        Some(ShmError::ZeroSizedUnit)
    } else if word(header, OFF_UNIT_SIZE as int) != unit_size {
        Some(ShmError::UnitSizeMismatch)
    } else if half(header, OFF_ARCH_BITS as int) != usize::BITS {
        Some(ShmError::ArchMismatch)
    } else if capacity == 0 || !is_pow2(capacity as int) || capacity < min_capacity {
        Some(ShmError::CorruptCapacity)
    } else {
        None
    }
}

/// Validate the header that every ring has. The generation and the capacity.
fn probe_header(
    header: &[u64],
    file_len: u64,
    kind: u32,
    unit_size: usize,
    min_capacity: usize,
    wrong_kind: ShmError,
) -> (r: Result<(u64, usize), ShmError>)
    requires
        file_len >= BUFFER_OFFSET ==> header@.len() >= 48,
    ensures
        match r {
            Ok((generation, capacity)) => {
                &&& header_fault(
                    header@,
                    file_len,
                    kind,
                    unit_size,
                    min_capacity,
                    wrong_kind,
                ) is None
                &&& generation == word(header@, OFF_GENERATION as int)
                &&& capacity == truncated(word(header@, OFF_CAPACITY as int))
            },
            Err(e) => header_fault(
                header@,
                file_len,
                kind,
                unit_size,
                min_capacity,
                wrong_kind,
            ) == Some(e),
        },
{
    if file_len < BUFFER_OFFSET as u64 {
        return Err(ShmError::TooSmall);
    }
    let generation: u64 = read_u64(header, OFF_GENERATION);
    if generation % 2 == 1 {
        return Err(ShmError::Initializing);
    }
    if read_u64(header, OFF_MAGIC) != MAGIC {
        return Err(ShmError::BadMagic);
    }
    if read_u32(header, OFF_VERSION) != VERSION {
        return Err(ShmError::BadVersion);
    }
    if read_u32(header, OFF_KIND) != kind {
        return Err(wrong_kind);
    }
    if unit_size == 0 {
        return Err(ShmError::ZeroSizedUnit);
    }
    if read_u64(header, OFF_UNIT_SIZE) != unit_size as u64 {
        return Err(ShmError::UnitSizeMismatch);
    }
    if read_u32(header, OFF_ARCH_BITS) != usize::BITS {
        return Err(ShmError::ArchMismatch);
    }
    let capacity: usize = truncate(read_u64(header, OFF_CAPACITY));
    if capacity == 0 || !power_of_two(capacity as u64) || capacity < min_capacity {
        return Err(ShmError::CorruptCapacity);
    }
    Ok((generation, capacity))
}

/// Two looks at a write cursor with a look at the read cursor between them.
#[derive(Clone, Copy)]
pub struct CursorSample {
    pub write_before: usize,
    pub read: usize,
    pub write_after: usize,
}

/// The most samples that are taken of a pair of cursors.
pub const MAX_SAMPLES: usize = 64;

/// What a run of samples, from the `i`-th on, says about a pair of cursors:
/// every sample must be aligned, and the first that the producer did not move
/// under decides about the occupancy. A ring too busy for a stable sample is
/// alive, not corrupt.
pub open spec fn samples_fault(
    samples: Seq<CursorSample>,
    i: int,
    cursor_align: usize,
    capacity: usize,
) -> Option<ShmError>
    decreases samples.len() - i,
{
    if i >= samples.len() || i >= MAX_SAMPLES {
        None
    } else {
        let s = samples[i];
        if s.write_before as int % cursor_align as int != 0 || s.read as int % cursor_align as int
            != 0 {
            Some(ShmError::UnalignedCursors)
        } else if s.write_before == s.write_after {
            if lag_usize(s.write_before, s.read) > capacity {
                Some(ShmError::OverfullCursors)
            } else {
                None
            }
        } else {
            samples_fault(samples, i + 1, cursor_align, capacity)
        }
    }
}

/// Judge samples of a pair of cursors.
pub fn judge_samples(samples: &[CursorSample], cursor_align: usize, capacity: usize) -> (r: Result<
    (),
    ShmError,
>)
    requires
        cursor_align > 0,
    ensures
        match r {
            Ok(()) => samples_fault(samples@, 0, cursor_align, capacity) is None,
            Err(e) => samples_fault(samples@, 0, cursor_align, capacity) == Some(e),
        },
{
    let mut i: usize = 0;
    while i < samples.len() && i < MAX_SAMPLES
        invariant
            cursor_align > 0,
            i <= samples@.len(),
            i <= MAX_SAMPLES,
            samples_fault(samples@, 0, cursor_align, capacity) == samples_fault(
                samples@,
                i as int,
                cursor_align,
                capacity,
            ),
        decreases samples@.len() - i,
    {
        let s = samples[i];
        if s.write_before % cursor_align != 0 || s.read % cursor_align != 0 {
            return Err(ShmError::UnalignedCursors);
        }
        if s.write_before == s.write_after {
            if s.write_before.wrapping_sub(s.read) > capacity {
                return Err(ShmError::OverfullCursors);
            }
            return Ok(());
        }
        i += 1;
    }
    Ok(())
}

/// A validated region of a two-party ring.
#[derive(Clone, Copy)]
pub struct PairOpened {
    pub capacity: usize,
    pub generation: u64,
    /// Bytes of the region.
    pub len: usize,
}

/// What the header of a two-party ring comes to.
pub open spec fn pair_probe(
    header: Seq<u64>,
    file_len: u64,
    kind: u32,
    unit_size: usize,
    min_capacity: usize,
) -> Result<PairOpened, ShmError> {
    let capacity = truncated(word(header, OFF_CAPACITY as int));
    let len = layout_len(capacity as int, unit_size as int, BUFFER_OFFSET as int, 0);
    match header_fault(
        header,
        file_len,
        kind,
        unit_size,
        min_capacity,
        ShmError::PairKindMismatch,
    ) {
        Some(e) => Err(e),
        None => match len_result(len) {
            Err(e) => Err(e),
            Ok(len) => if file_len < len {
                Err(ShmError::Truncated)
            } else {
                Ok(
                    PairOpened {
                        capacity,
                        generation: word(header, OFF_GENERATION as int),
                        len,
                    },
                )
            },
        },
    }
}

/// Validate the header of a two-party ring; the length says how much to map.
pub fn probe_region(
    header: &[u64],
    file_len: u64,
    kind: u32,
    unit_size: usize,
    min_capacity: usize,
) -> (r: Result<PairOpened, ShmError>)
    requires
        file_len >= BUFFER_OFFSET ==> header@.len() >= 48,
    ensures
        r == pair_probe(header@, file_len, kind, unit_size, min_capacity),
{
    match probe_header(
        header,
        file_len,
        kind,
        unit_size,
        min_capacity,
        ShmError::PairKindMismatch,
    ) {
        Err(e) => Err(e),
        Ok((generation, capacity)) => match region_len(capacity, unit_size) {
            Err(e) => Err(e),
            Ok(len) => {
                if file_len < len as u64 {
                    return Err(ShmError::Truncated);
                }
                Ok(PairOpened { capacity, generation, len })
            },
        },
    }
}

/// Judge a mapped two-party ring: the samples of its cursors, and whether its
/// generation is still the one that was validated.
pub fn confirm_region(
    opened: &PairOpened,
    samples: &[CursorSample],
    cursor_align: usize,
    generation: u64,
) -> (r: Result<(), ShmError>)
    requires
        cursor_align > 0,
    ensures
        match r {
            Ok(()) => samples_fault(samples@, 0, cursor_align, opened.capacity) is None
                && generation == opened.generation,
            Err(e) => match samples_fault(samples@, 0, cursor_align, opened.capacity) {
                Some(fault) => e == fault,
                None => e == ShmError::ReinitializedWhileReading && generation
                    != opened.generation,
            },
        },
{
    match judge_samples(samples, cursor_align, opened.capacity) {
        Err(e) => Err(e),
        Ok(()) => {
            if generation != opened.generation {
                return Err(ShmError::ReinitializedWhileReading);
            }
            Ok(())
        },
    }
}

/// One look at the cursors of a region that nobody moves.
pub open spec fn still_sample(region: Seq<u64>) -> CursorSample {
    CursorSample {
        write_before: truncated(word(region, OFF_WRITE_CURSOR as int)),
        read: truncated(word(region, OFF_READ_CURSOR as int)),
        write_after: truncated(word(region, OFF_WRITE_CURSOR as int)),
    }
}

/// What opening a region of a two-party ring comes to.
pub open spec fn pair_open(
    region: Seq<u64>,
    file_len: u64,
    kind: u32,
    unit_size: usize,
    min_capacity: usize,
    cursor_align: usize,
) -> Result<PairOpened, ShmError> {
    match pair_probe(region, file_len, kind, unit_size, min_capacity) {
        Err(e) => Err(e),
        Ok(opened) => match samples_fault(
            seq![still_sample(region)],
            0,
            cursor_align,
            opened.capacity,
        ) {
            Some(e) => Err(e),
            None => Ok(opened),
        },
    }
}

/// Open a region of a two-party ring.
pub fn open_region(
    region: &[u64],
    file_len: u64,
    kind: u32,
    unit_size: usize,
    min_capacity: usize,
    cursor_align: usize,
) -> (r: Result<PairOpened, ShmError>)
    requires
        words_for(file_len as int) <= region@.len(),
        cursor_align > 0,
    ensures
        r == pair_open(region@, file_len, kind, unit_size, min_capacity, cursor_align),
{
    match probe_region(region, file_len, kind, unit_size, min_capacity) {
        Err(e) => Err(e),
        Ok(opened) => {
            let write_before: usize = truncate(read_u64(region, OFF_WRITE_CURSOR));
            let read: usize = truncate(read_u64(region, OFF_READ_CURSOR));
            let write_after: usize = truncate(read_u64(region, OFF_WRITE_CURSOR));
            let samples: [CursorSample; 1] = [CursorSample { write_before, read, write_after }];
            proof {
                assert(samples@ =~= seq![still_sample(region@)]);
            }
            let generation: u64 = read_u64(region, OFF_GENERATION);
            match confirm_region(&opened, samples.as_slice(), cursor_align, generation) {
                Err(e) => Err(e),
                Ok(()) => Ok(opened),
            }
        },
    }
}

/// A validated region of a gating ring.
#[derive(Clone, Copy)]
pub struct SpmcOpened {
    pub capacity: usize,
    pub max_consumers: usize,
    pub generation: u64,
    /// Bytes of the region.
    pub len: usize,
}

/// What the header of a gating ring comes to.
pub open spec fn gating_probe(
    header: Seq<u64>,
    file_len: u64,
    kind: u32,
    unit_size: usize,
    min_capacity: usize,
) -> Result<SpmcOpened, ShmError> {
    let capacity = truncated(word(header, OFF_CAPACITY as int));
    let max_consumers = half(header, OFF_MAX_CONSUMERS as int) as usize;
    let len = layout_len(
        capacity as int,
        unit_size as int,
        SPMC_TABLE_OFFSET as int,
        max_consumers as int,
    );
    match header_fault(
        header,
        file_len,
        kind,
        unit_size,
        min_capacity,
        ShmError::KindMismatch,
    ) {
        Some(e) => Err(e),
        None => if max_consumers == 0 {
            Err(ShmError::CorruptMaxConsumers)
        } else if !len_ok(len) {
            Err(ShmError::CorruptGeometry)
        } else if file_len < len {
            Err(ShmError::Truncated)
        } else {
            Ok(
                SpmcOpened {
                    capacity,
                    max_consumers,
                    generation: word(header, OFF_GENERATION as int),
                    len: len as usize,
                },
            )
        },
    }
}

/// Validate the header of a gating ring; the length says how much to map.
pub fn probe_spmc_region(
    header: &[u64],
    file_len: u64,
    kind: u32,
    unit_size: usize,
    min_capacity: usize,
) -> (r: Result<SpmcOpened, ShmError>)
    requires
        file_len >= BUFFER_OFFSET ==> header@.len() >= 48,
    ensures
        r == gating_probe(header@, file_len, kind, unit_size, min_capacity),
{
    match probe_header(
        header,
        file_len,
        kind,
        unit_size,
        min_capacity,
        ShmError::KindMismatch,
    ) {
        Err(e) => Err(e),
        Ok((generation, capacity)) => {
            let max_consumers: usize = read_u32(header, OFF_MAX_CONSUMERS) as usize;
            if max_consumers == 0 {
                return Err(ShmError::CorruptMaxConsumers);
            }
            match spmc_region_len(capacity, unit_size, max_consumers) {
                Err(e) => Err(ShmError::CorruptGeometry),
                Ok(len) => {
                    if file_len < len as u64 {
                        return Err(ShmError::Truncated);
                    }
                    Ok(SpmcOpened { capacity, max_consumers, generation, len })
                },
            }
        },
    }
}

/// What a look at the mapped counters comes to: the tail must stand at a
/// record boundary, and the generation must be the one that was validated.
pub open spec fn look_fault(
    tail: u64,
    align: u64,
    validated: u64,
    generation: u64,
    unaligned: ShmError,
) -> Option<ShmError> {
    if tail as int % align as int != 0 {
        Some(unaligned)
    } else if generation != validated {
        Some(ShmError::ReinitializedWhileReading)
    } else {
        None
    }
}

/// Judge a look at the mapped counters.
pub fn confirm_look(
    tail: u64,
    align: u64,
    validated: u64,
    generation: u64,
    unaligned: ShmError,
) -> (r: Result<(), ShmError>)
    requires
        align > 0,
    ensures
        match r {
            Ok(()) => look_fault(tail, align, validated, generation, unaligned) is None,
            Err(e) => look_fault(tail, align, validated, generation, unaligned) == Some(e),
        },
{
    if tail % align != 0 {
        return Err(unaligned);
    }
    if generation != validated {
        return Err(ShmError::ReinitializedWhileReading);
    }
    Ok(())
}

/// What opening a region of a gating ring comes to.
pub open spec fn gating_open(
    region: Seq<u64>,
    file_len: u64,
    kind: u32,
    unit_size: usize,
    min_capacity: usize,
    cursor_align: u64,
) -> Result<SpmcOpened, ShmError> {
    match gating_probe(region, file_len, kind, unit_size, min_capacity) {
        Err(e) => Err(e),
        Ok(opened) => if word(region, OFF_WRITE_CURSOR as int) as int % cursor_align as int != 0 {
            Err(ShmError::UnalignedCursors)
        } else {
            Ok(opened)
        },
    }
}

/// Open a region of a gating ring.
pub fn open_spmc_region(
    region: &[u64],
    file_len: u64,
    kind: u32,
    unit_size: usize,
    min_capacity: usize,
    cursor_align: u64,
) -> (r: Result<SpmcOpened, ShmError>)
    requires
        words_for(file_len as int) <= region@.len(),
        cursor_align > 0,
    ensures
        r == gating_open(region@, file_len, kind, unit_size, min_capacity, cursor_align),
        r matches Ok(opened) ==> table_fits(
            region@,
            SPMC_TABLE_OFFSET as int,
            opened.max_consumers as int,
        ),
{
    match probe_spmc_region(region, file_len, kind, unit_size, min_capacity) {
        Err(e) => Err(e),
        Ok(opened) => {
            proof {
                lemma_room(
                    opened.capacity as int,
                    unit_size as int,
                    SPMC_TABLE_OFFSET as int,
                    opened.max_consumers as int,
                );
            }
            let tail: u64 = read_u64(region, OFF_WRITE_CURSOR);
            let generation: u64 = read_u64(region, OFF_GENERATION);
            match confirm_look(
                tail,
                cursor_align,
                opened.generation,
                generation,
                ShmError::UnalignedCursors,
            ) {
                Err(e) => Err(e),
                Ok(()) => Ok(opened),
            }
        },
    }
}

/// A region that is long enough has room for its table.
pub proof fn lemma_room(capacity: int, stride: int, base: int, slots: int)
    requires
        0 <= capacity,
        0 <= stride,
    ensures
        layout_len(capacity, stride, base, slots) >= base + slots * 128,
{
    assert(capacity * stride >= 0) by (nonlinear_arith)
        requires
            0 <= capacity,
            0 <= stride,
    ;
}

/// A validated region of a lossy ring.
#[derive(Clone, Copy)]
pub struct BcastOpened {
    pub capacity: usize,
    pub generation: u64,
    pub slack: u64,
    /// Bytes of the region.
    pub len: usize,
}

/// What the header of a lossy ring comes to.
pub open spec fn lossy_probe(
    header: Seq<u64>,
    file_len: u64,
    kind: u32,
    unit_size: usize,
    stride: usize,
    buffer_offset: usize,
    min_capacity: usize,
) -> Result<BcastOpened, ShmError> {
    let capacity = truncated(word(header, OFF_CAPACITY as int));
    let slack = word(header, OFF_AUX as int);
    let len = layout_len(capacity as int, stride as int, buffer_offset as int, 0);
    match header_fault(
        header,
        file_len,
        kind,
        unit_size,
        min_capacity,
        ShmError::KindMismatch,
    ) {
        Some(e) => Err(e),
        None => if slack >= capacity {
            Err(ShmError::CorruptSlack)
        } else if word(header, OFF_STRIDE as int) != stride {
            Err(ShmError::StrideMismatch)
        } else if !len_ok(len) {
            Err(ShmError::CorruptGeometry)
        } else if file_len < len {
            Err(ShmError::Truncated)
        } else {
            Ok(
                BcastOpened {
                    capacity,
                    generation: word(header, OFF_GENERATION as int),
                    slack,
                    len: len as usize,
                },
            )
        },
    }
}

/// Validate the header of a lossy ring; the length says how much to map.
pub fn probe_bcast_region(
    header: &[u64],
    file_len: u64,
    kind: u32,
    unit_size: usize,
    stride: usize,
    buffer_offset: usize,
    min_capacity: usize,
) -> (r: Result<BcastOpened, ShmError>)
    requires
        file_len >= BUFFER_OFFSET ==> header@.len() >= 48,
    ensures
        r == lossy_probe(
            header@,
            file_len,
            kind,
            unit_size,
            stride,
            buffer_offset,
            min_capacity,
        ),
{
    match probe_header(
        header,
        file_len,
        kind,
        unit_size,
        min_capacity,
        ShmError::KindMismatch,
    ) {
        Err(e) => Err(e),
        Ok((generation, capacity)) => {
            let slack: u64 = read_u64(header, OFF_AUX);
            if slack >= capacity as u64 {
                return Err(ShmError::CorruptSlack);
            }
            if read_u64(header, OFF_STRIDE) != stride as u64 {
                return Err(ShmError::StrideMismatch);
            }
            match bcast_region_len(capacity, stride, buffer_offset) {
                Err(e) => Err(ShmError::CorruptGeometry),
                Ok(len) => {
                    if file_len < len as u64 {
                        return Err(ShmError::Truncated);
                    }
                    Ok(BcastOpened { capacity, generation, slack, len })
                },
            }
        },
    }
}

/// What opening a region of a lossy ring comes to.
pub open spec fn lossy_open(
    region: Seq<u64>,
    file_len: u64,
    kind: u32,
    unit_size: usize,
    stride: usize,
    buffer_offset: usize,
    min_capacity: usize,
    tail_align: u64,
) -> Result<BcastOpened, ShmError> {
    match lossy_probe(region, file_len, kind, unit_size, stride, buffer_offset, min_capacity) {
        Err(e) => Err(e),
        Ok(opened) => if word(region, OFF_WRITE_CURSOR as int) as int % tail_align as int != 0 {
            Err(ShmError::UnalignedTail)
        } else {
            Ok(opened)
        },
    }
}

/// Open a region of a lossy ring. Nothing is written, so that a region mapped
/// for reading only will do.
pub fn open_bcast_region(
    region: &[u64],
    file_len: u64,
    kind: u32,
    unit_size: usize,
    stride: usize,
    buffer_offset: usize,
    min_capacity: usize,
    tail_align: u64,
) -> (r: Result<BcastOpened, ShmError>)
    requires
        words_for(file_len as int) <= region@.len(),
        tail_align > 0,
    ensures
        r == lossy_open(
            region@,
            file_len,
            kind,
            unit_size,
            stride,
            buffer_offset,
            min_capacity,
            tail_align,
        ),
{
    match probe_bcast_region(
        region,
        file_len,
        kind,
        unit_size,
        stride,
        buffer_offset,
        min_capacity,
    ) {
        Err(e) => Err(e),
        Ok(opened) => {
            let tail: u64 = read_u64(region, OFF_WRITE_CURSOR);
            let generation: u64 = read_u64(region, OFF_GENERATION);
            match confirm_look(
                tail,
                tail_align,
                opened.generation,
                generation,
                ShmError::UnalignedTail,
            ) {
                Err(e) => Err(e),
                Ok(()) => Ok(opened),
            }
        },
    }
}

/// A validated region of an anchored ring.
#[derive(Clone, Copy)]
pub struct AnchOpened {
    pub capacity: usize,
    pub max_anchors: usize,
    pub table_offset: usize,
    pub generation: u64,
    pub slack: u64,
    /// Bytes of the region.
    pub len: usize,
}

/// What the header of an anchored ring comes to. The slack belongs to the
/// element ring; the same word of the byte ring changes with its state and is
/// not judged.
pub open spec fn anchored_probe(
    header: Seq<u64>,
    file_len: u64,
    kind: u32,
    unit_size: usize,
    stride: usize,
    table_offset: usize,
    min_capacity: usize,
) -> Result<AnchOpened, ShmError> {
    let capacity = truncated(word(header, OFF_CAPACITY as int));
    let max_anchors = half(header, OFF_MAX_CONSUMERS as int) as usize;
    let slack = if kind == KIND_ANCH_ELEMS {
        word(header, OFF_AUX as int)
    } else {
        0
    };
    let len = layout_len(
        capacity as int,
        stride as int,
        table_offset as int,
        max_anchors as int,
    );
    match header_fault(
        header,
        file_len,
        kind,
        unit_size,
        min_capacity,
        ShmError::KindMismatch,
    ) {
        Some(e) => Err(e),
        None => if max_anchors == 0 {
            Err(ShmError::CorruptMaxAnchors)
        } else if slack >= capacity {
            Err(ShmError::CorruptSlack)
        } else if word(header, OFF_STRIDE as int) != stride {
            Err(ShmError::StrideMismatch)
        } else if !len_ok(len) {
            Err(ShmError::CorruptGeometry)
        } else if file_len < len {
            Err(ShmError::Truncated)
        } else {
            Ok(
                AnchOpened {
                    capacity,
                    max_anchors,
                    table_offset,
                    generation: word(header, OFF_GENERATION as int),
                    slack,
                    len: len as usize,
                },
            )
        },
    }
}

/// Validate the header of an anchored ring; the length says how much to map.
pub fn probe_anch_region(
    header: &[u64],
    file_len: u64,
    kind: u32,
    unit_size: usize,
    stride: usize,
    table_offset: usize,
    min_capacity: usize,
) -> (r: Result<AnchOpened, ShmError>)
    requires
        file_len >= BUFFER_OFFSET ==> header@.len() >= 48,
    ensures
        r == anchored_probe(
            header@,
            file_len,
            kind,
            unit_size,
            stride,
            table_offset,
            min_capacity,
        ),
{
    match probe_header(
        header,
        file_len,
        kind,
        unit_size,
        min_capacity,
        ShmError::KindMismatch,
    ) {
        Err(e) => Err(e),
        Ok((generation, capacity)) => {
            let max_anchors: usize = read_u32(header, OFF_MAX_CONSUMERS) as usize;
            if max_anchors == 0 {
                return Err(ShmError::CorruptMaxAnchors);
            }
            let slack: u64 = if kind == KIND_ANCH_ELEMS {
                read_u64(header, OFF_AUX)
            } else {
                0
            };
            if slack >= capacity as u64 {
                return Err(ShmError::CorruptSlack);
            }
            if read_u64(header, OFF_STRIDE) != stride as u64 {
                return Err(ShmError::StrideMismatch);
            }
            match anch_region_len(capacity, stride, table_offset, max_anchors) {
                Err(e) => Err(ShmError::CorruptGeometry),
                Ok(len) => {
                    if file_len < len as u64 {
                        return Err(ShmError::Truncated);
                    }
                    Ok(AnchOpened { capacity, max_anchors, table_offset, generation, slack, len })
                },
            }
        },
    }
}

/// What opening a region of an anchored ring comes to.
pub open spec fn anchored_open(
    region: Seq<u64>,
    file_len: u64,
    kind: u32,
    unit_size: usize,
    stride: usize,
    table_offset: usize,
    min_capacity: usize,
    tail_align: u64,
) -> Result<AnchOpened, ShmError> {
    match anchored_probe(region, file_len, kind, unit_size, stride, table_offset, min_capacity) {
        Err(e) => Err(e),
        Ok(opened) => if word(region, OFF_WRITE_CURSOR as int) as int % tail_align as int != 0 {
            Err(ShmError::UnalignedTail)
        } else {
            Ok(opened)
        },
    }
}

/// Open a region of an anchored ring. Nothing is written, so that a region
/// mapped for reading only will do for an observer.
pub fn open_anch_region(
    region: &[u64],
    file_len: u64,
    kind: u32,
    unit_size: usize,
    stride: usize,
    table_offset: usize,
    min_capacity: usize,
    tail_align: u64,
) -> (r: Result<AnchOpened, ShmError>)
    requires
        words_for(file_len as int) <= region@.len(),
        table_offset % 8 == 0,
        table_offset >= BUFFER_OFFSET,
        tail_align > 0,
    ensures
        r == anchored_open(
            region@,
            file_len,
            kind,
            unit_size,
            stride,
            table_offset,
            min_capacity,
            tail_align,
        ),
        r matches Ok(opened) ==> table_fits(
            region@,
            table_offset as int,
            opened.max_anchors as int,
        ),
{
    match probe_anch_region(
        region,
        file_len,
        kind,
        unit_size,
        stride,
        table_offset,
        min_capacity,
    ) {
        Err(e) => Err(e),
        Ok(opened) => {
            proof {
                lemma_room(
                    opened.capacity as int,
                    stride as int,
                    table_offset as int,
                    opened.max_anchors as int,
                );
            }
            let tail: u64 = read_u64(region, OFF_WRITE_CURSOR);
            let generation: u64 = read_u64(region, OFF_GENERATION);
            match confirm_look(
                tail,
                tail_align,
                opened.generation,
                generation,
                ShmError::UnalignedTail,
            ) {
                Err(e) => Err(e),
                Ok(()) => Ok(opened),
            }
        },
    }
}

} // verus!
