//! The layout of a shared-memory ring.
//!
//! A region is a run of 64-bit words. All offsets are in bytes; a 32-bit field
//! is the lower half of its word at an offset that is a multiple of eight and
//! the upper half otherwise.
//!
//! ```text
//! 0    magic              u64
//! 8    version            u32
//! 12   kind               u32
//! 16   capacity           u64   units, a power of two
//! 24   unit_size          u64   bytes per unit
//! 32   arch_bits          u32   width of a machine word
//! 36   max_consumers      u32   slots of the consumer table, 0 without one
//! 40   producer_lease     u64   token of the producer, 0 = free
//! 48   consumer_lease     u64   token of the consumer, 0 = free
//! 56   generation         u64   odd while the region is being initialised
//! 128  write cursor/tail  u64
//! 136  closed             u64
//! 144  aux                u64   starving word, or the reposition slack
//! 152  stride             u64   bytes per slot, for rings that validate it
//! 256  read cursor/intent u64
//! 264  starving           u64
//! 384  buffer, consumer table, or the start of the last record
//! 512  buffer or consumer table of the byte rings with three counters
//! ```
//!
//! A slot of a consumer table is 128 bytes: the lease at 0, the control word
//! (epoch in the upper half, state in the lower) at 8, the cursor at 16.

use crate::registry::{GateSlot, DETACHED};
use vstd::prelude::*;

verus! {

pub const MAGIC: u64 = 0x3162_725f_7473_7572;

pub const VERSION: u32 = 1;

pub const KIND_BYTES: u32 = 1;

pub const KIND_ELEMS: u32 = 2;

pub const KIND_SPMC_BYTES: u32 = 3;

pub const KIND_SPMC_ELEMS: u32 = 4;

pub const KIND_BCAST_ELEMS: u32 = 5;

pub const KIND_BCAST_BYTES: u32 = 6;

pub const KIND_ANCH_ELEMS: u32 = 9;

pub const KIND_ANCH_BYTES: u32 = 10;

pub const OFF_MAGIC: usize = 0;

pub const OFF_VERSION: usize = 8;

pub const OFF_KIND: usize = 12;

pub const OFF_CAPACITY: usize = 16;

pub const OFF_UNIT_SIZE: usize = 24;

pub const OFF_ARCH_BITS: usize = 32;

pub const OFF_MAX_CONSUMERS: usize = 36;

pub const OFF_PRODUCER_LEASE: usize = 40;

pub const OFF_CONSUMER_LEASE: usize = 48;

pub const OFF_GENERATION: usize = 56;

pub const OFF_WRITE_CURSOR: usize = 128;

pub const OFF_CLOSED: usize = 136;

pub const OFF_AUX: usize = 144;

pub const OFF_STRIDE: usize = 152;

pub const OFF_READ_CURSOR: usize = 256;

pub const OFF_STARVING: usize = 264;

pub const OFF_INTENT: usize = 256;

pub const OFF_LATEST: usize = 384;

/// Where the buffer, or the consumer table, starts.
pub const BUFFER_OFFSET: usize = 384;

pub const SPMC_TABLE_OFFSET: usize = 384;

pub const ANCH_ELEMS_TABLE_OFFSET: usize = 384;

/// Where the buffer of the lossy byte ring starts.
pub const BCAST_BYTES_BUFFER_OFFSET: usize = 512;

pub const ANCH_BYTES_TABLE_OFFSET: usize = 512;

/// Bytes of a consumer-table slot.
pub const SLOT_STRIDE: usize = 128;

pub const SLOT_LEASE: usize = 0;

pub const SLOT_CONTROL: usize = 8;

pub const SLOT_CURSOR: usize = 16;

/// Nobody holds the slot.
pub const STATE_FREE: u32 = 0;

/// A consumer holds the slot.
pub const STATE_ACTIVE: u32 = 1;

/// The slot was taken away from its holder and is not given out again until
/// the table is reset.
pub const STATE_RETIRED: u32 = 2;

/// The largest length of a region: what a file offset can hold.
pub const MAX_FILE_LEN: usize = usize::MAX / 2;

/// What kind of failure an error is.
#[derive(Clone, Copy, Debug, PartialEq, Eq, Structural)]
pub enum ErrorKind {
    /// The arguments cannot be served.
    InvalidInput,
    /// The region is not what was expected.
    InvalidData,
    /// Somebody else holds what was asked for.
    AddrInUse,
    /// The ring is closed.
    BrokenPipe,
}

/// Why a region could not be created or attached to.
#[derive(Clone, Copy, Debug, PartialEq, Eq, Structural)]
pub enum ShmError {
    CapacityOverflow,
    LengthLimit,
    ZeroSized,
    Overaligned,
    SlackTooLarge,
    NoConsumerSlots,
    TooManyConsumerSlots,
    NoAnchorSlots,
    TooManyAnchorSlots,
    ConsumerSlotOutOfRange,
    AnchorSlotOutOfRange,
    EpochMismatch,
    TooSmall,
    Initializing,
    BadMagic,
    BadVersion,
    PairKindMismatch,
    KindMismatch,
    ZeroSizedUnit,
    UnitSizeMismatch,
    ArchMismatch,
    CorruptCapacity,
    CorruptMaxConsumers,
    CorruptMaxAnchors,
    CorruptSlack,
    StrideMismatch,
    CorruptGeometry,
    Truncated,
    UnalignedCursors,
    OverfullCursors,
    UnalignedTail,
    ReinitializedWhileReading,
    RoleHeld,
    ReinitializedWhileAttaching,
    ConsumerTableFull,
    AnchorTableFull,
    Closed,
}

impl ShmError {
    /// What kind of failure this is.
    pub open spec fn spec_kind(&self) -> ErrorKind {
        match self {
            ShmError::CapacityOverflow | ShmError::LengthLimit | ShmError::ZeroSized
            | ShmError::Overaligned | ShmError::SlackTooLarge | ShmError::NoConsumerSlots
            | ShmError::TooManyConsumerSlots | ShmError::NoAnchorSlots
            | ShmError::TooManyAnchorSlots | ShmError::ConsumerSlotOutOfRange
            | ShmError::AnchorSlotOutOfRange | ShmError::EpochMismatch => ErrorKind::InvalidInput,
            ShmError::RoleHeld | ShmError::ReinitializedWhileAttaching
            | ShmError::ConsumerTableFull | ShmError::AnchorTableFull => ErrorKind::AddrInUse,
            ShmError::Closed => ErrorKind::BrokenPipe,
            _ => ErrorKind::InvalidData,
        }
    }

    /// What kind of failure this is.
    pub fn kind(&self) -> (r: ErrorKind)
        ensures
            r == self.spec_kind(),
    {
        match self {
            ShmError::CapacityOverflow | ShmError::LengthLimit | ShmError::ZeroSized
            | ShmError::Overaligned | ShmError::SlackTooLarge | ShmError::NoConsumerSlots
            | ShmError::TooManyConsumerSlots | ShmError::NoAnchorSlots
            | ShmError::TooManyAnchorSlots | ShmError::ConsumerSlotOutOfRange
            | ShmError::AnchorSlotOutOfRange | ShmError::EpochMismatch => ErrorKind::InvalidInput,
            ShmError::RoleHeld | ShmError::ReinitializedWhileAttaching
            | ShmError::ConsumerTableFull | ShmError::AnchorTableFull => ErrorKind::AddrInUse,
            ShmError::Closed => ErrorKind::BrokenPipe,
            _ => ErrorKind::InvalidData,
        }
    }

    /// The error in words.
    pub open spec fn text(&self) -> Seq<char> {
        match self {
            ShmError::CapacityOverflow => "capacity overflows region"@,
            ShmError::LengthLimit => "region length exceeds the platform file-offset limit"@,
            ShmError::ZeroSized | ShmError::ZeroSizedUnit =>
                "zero-sized elements are not supported in shm rings"@,
            ShmError::Overaligned => "element alignment exceeds the buffer offset alignment"@,
            ShmError::SlackTooLarge => "slack must be less than the capacity"@,
            ShmError::NoConsumerSlots => "max_consumers must be at least 1"@,
            ShmError::TooManyConsumerSlots =>
                "max_consumers exceeds the header field width (u32)"@,
            ShmError::NoAnchorSlots => "max_anchors must be at least 1"@,
            ShmError::TooManyAnchorSlots => "max_anchors exceeds the header field width (u32)"@,
            ShmError::ConsumerSlotOutOfRange =>
                "slot index out of range for this ring's consumer table"@,
            ShmError::AnchorSlotOutOfRange =>
                "slot index out of range for this ring's anchor table"@,
            ShmError::EpochMismatch =>
                "slot epoch mismatch — the slot no longer belongs to the anchor you diagnosed (freed, re-claimed, or already retired)"@,
            ShmError::TooSmall => "region too small to hold a ring header"@,
            ShmError::Initializing => "ring is being initialized by another process"@,
            ShmError::BadMagic => "bad magic: not a rust-rb shm ring"@,
            ShmError::BadVersion => "unsupported ring version"@,
            ShmError::PairKindMismatch => "ring kind mismatch (bytes vs element ring)"@,
            ShmError::KindMismatch => "ring kind mismatch"@,
            ShmError::UnitSizeMismatch => "element size mismatch"@,
            ShmError::ArchMismatch => "architecture (usize width) mismatch"@,
            ShmError::CorruptCapacity => "corrupt capacity"@,
            ShmError::CorruptMaxConsumers => "corrupt max_consumers"@,
            ShmError::CorruptMaxAnchors => "corrupt max_anchors"@,
            ShmError::CorruptSlack => "corrupt slack: not below the capacity"@,
            ShmError::StrideMismatch => "element slot stride mismatch"@,
            ShmError::CorruptGeometry => "corrupt geometry: region length overflows"@,
            ShmError::Truncated => "region smaller than its declared capacity"@,
            ShmError::UnalignedCursors => "corrupt cursors: not record-aligned"@,
            ShmError::OverfullCursors => "corrupt cursors: occupancy exceeds capacity"@,
            ShmError::UnalignedTail => "corrupt tail: not record-aligned"@,
            ShmError::ReinitializedWhileReading => "ring was re-initialized during validation"@,
            ShmError::RoleHeld =>
                "ring role already held (drop the existing handle, or use the force/recover constructors if the holder is known dead)"@,
            ShmError::ReinitializedWhileAttaching => "ring was re-initialized during attach"@,
            ShmError::ConsumerTableFull =>
                "consumer table is full (max_consumers is fixed at creation; retired slots free only via recover_shm)"@,
            ShmError::AnchorTableFull =>
                "anchor table is full (max_anchors is fixed at creation; retired slots free only via recover_shm)"@,
            ShmError::Closed =>
                "ring closed: producer dropped (attach a new producer to reopen)"@,
        }
    }

    /// The error in words.
    pub fn message(&self) -> (r: String)
        ensures
            r@ == self.text(),
    {
        let text = match self {
            ShmError::CapacityOverflow => "capacity overflows region",
            ShmError::LengthLimit => "region length exceeds the platform file-offset limit",
            ShmError::ZeroSized | ShmError::ZeroSizedUnit =>
                "zero-sized elements are not supported in shm rings",
            ShmError::Overaligned => "element alignment exceeds the buffer offset alignment",
            ShmError::SlackTooLarge => "slack must be less than the capacity",
            ShmError::NoConsumerSlots => "max_consumers must be at least 1",
            ShmError::TooManyConsumerSlots =>
                "max_consumers exceeds the header field width (u32)",
            ShmError::NoAnchorSlots => "max_anchors must be at least 1",
            ShmError::TooManyAnchorSlots => "max_anchors exceeds the header field width (u32)",
            ShmError::ConsumerSlotOutOfRange =>
                "slot index out of range for this ring's consumer table",
            ShmError::AnchorSlotOutOfRange =>
                "slot index out of range for this ring's anchor table",
            ShmError::EpochMismatch =>
                "slot epoch mismatch — the slot no longer belongs to the anchor you diagnosed (freed, re-claimed, or already retired)",
            ShmError::TooSmall => "region too small to hold a ring header",
            ShmError::Initializing => "ring is being initialized by another process",
            ShmError::BadMagic => "bad magic: not a rust-rb shm ring",
            ShmError::BadVersion => "unsupported ring version",
            ShmError::PairKindMismatch => "ring kind mismatch (bytes vs element ring)",
            ShmError::KindMismatch => "ring kind mismatch",
            ShmError::UnitSizeMismatch => "element size mismatch",
            ShmError::ArchMismatch => "architecture (usize width) mismatch",
            ShmError::CorruptCapacity => "corrupt capacity",
            ShmError::CorruptMaxConsumers => "corrupt max_consumers",
            ShmError::CorruptMaxAnchors => "corrupt max_anchors",
            ShmError::CorruptSlack => "corrupt slack: not below the capacity",
            ShmError::StrideMismatch => "element slot stride mismatch",
            ShmError::CorruptGeometry => "corrupt geometry: region length overflows",
            ShmError::Truncated => "region smaller than its declared capacity",
            ShmError::UnalignedCursors => "corrupt cursors: not record-aligned",
            ShmError::OverfullCursors => "corrupt cursors: occupancy exceeds capacity",
            ShmError::UnalignedTail => "corrupt tail: not record-aligned",
            ShmError::ReinitializedWhileReading => "ring was re-initialized during validation",
            ShmError::RoleHeld =>
                "ring role already held (drop the existing handle, or use the force/recover constructors if the holder is known dead)",
            ShmError::ReinitializedWhileAttaching => "ring was re-initialized during attach",
            ShmError::ConsumerTableFull =>
                "consumer table is full (max_consumers is fixed at creation; retired slots free only via recover_shm)",
            ShmError::AnchorTableFull =>
                "anchor table is full (max_anchors is fixed at creation; retired slots free only via recover_shm)",
            ShmError::Closed => "ring closed: producer dropped (attach a new producer to reopen)",
        };
        text.to_owned()
    }
}

/// The word at an offset.
pub open spec fn word(region: Seq<u64>, offset: int) -> u64 {
    region[offset / 8]
}

/// The half of a word at an offset.
pub open spec fn half_of(w: u64, offset: int) -> u32 {
    if offset % 8 == 0 {
        (w % 0x1_0000_0000) as u32
    } else {
        (w / 0x1_0000_0000) as u32
    }
}

/// The 32-bit field at an offset.
pub open spec fn half(region: Seq<u64>, offset: int) -> u32 {
    half_of(word(region, offset), offset)
}

/// A word made of two halves.
pub open spec fn packed(low: u32, high: u32) -> u64 {
    (low + 0x1_0000_0000 * high) as u64
}

/// A word made of two halves.
pub fn pack(low: u32, high: u32) -> (r: u64)
    ensures
        r == packed(low, high),
        half_of(r, 0) == low,
        half_of(r, 4) == high,
{
    low as u64 + 0x1_0000_0000u64 * (high as u64)
}

/// Read a word.
pub fn read_u64(region: &[u64], offset: usize) -> (r: u64)
    requires
        offset % 8 == 0,
        offset / 8 < region@.len(),
    ensures
        r == word(region@, offset as int),
{
    region[offset / 8]
}

/// Read a 32-bit field.
pub fn read_u32(region: &[u64], offset: usize) -> (r: u32)
    requires
        offset % 4 == 0,
        offset / 8 < region@.len(),
    ensures
        r == half(region@, offset as int),
{
    let w: u64 = region[offset / 8];
    if offset % 8 == 0 {
        (w % 0x1_0000_0000) as u32
    } else {
        (w / 0x1_0000_0000) as u32
    }
}

/// Write a word.
pub fn store_u64(region: &mut [u64], offset: usize, v: u64)
    requires
        offset % 8 == 0,
        offset / 8 < old(region)@.len(),
    ensures
        final(region)@ == old(region)@.update(offset as int / 8, v),
{
    region[offset / 8] = v;
}

/// Write zeroes from a word on.
pub fn zero_from(region: &mut [u64], from: usize)
    ensures
        final(region)@ == Seq::new(
            old(region)@.len(),
            |i: int|
                if i >= from {
                    0u64
                } else {
                    old(region)@[i]
                },
        ),
{
    let len: usize = region.len();
    let mut i: usize = from;
    while i < len
        invariant
            from <= i,
            len == region@.len(),
            len == old(region)@.len(),
            forall|j: int|
                0 <= j < len ==> #[trigger] region@[j] == (if from <= j < i {
                    0u64
                } else {
                    old(region)@[j]
                }),
        decreases len - i,
    {
        region[i] = 0;
        i += 1;
    }
    proof {
        assert(region@ =~= Seq::new(
            old(region)@.len(),
            |i: int|
                if i >= from {
                    0u64
                } else {
                    old(region)@[i]
                },
        ));
    }
}

/// Bytes of a region: the buffer, what stands before it, and the table.
pub open spec fn layout_len(capacity: int, stride: int, base: int, slots: int) -> int {
    capacity * stride + base + slots * SLOT_STRIDE
}

/// Words that hold `len` bytes.
pub open spec fn words_for(len: int) -> int {
    (len + 7) / 8
}

/// The outcome of computing a region's length.
pub open spec fn len_result(len: int) -> Result<usize, ShmError> {
    if len > usize::MAX {
        Err(ShmError::CapacityOverflow)
    } else if len > MAX_FILE_LEN {
        Err(ShmError::LengthLimit)
    } else {
        Ok(len as usize)
    }
}

/// Whether a region can have a length.
pub open spec fn len_ok(len: int) -> bool {
    len <= usize::MAX && len <= MAX_FILE_LEN
}

fn checked_len(capacity: usize, stride: usize, base: usize, slots: usize) -> (r: Result<
    usize,
    ShmError,
>)
    ensures
        r == len_result(
            layout_len(capacity as int, stride as int, base as int, slots as int),
        ),
{
    proof {
        assert(0 <= capacity * stride) by (nonlinear_arith)
            requires
                0 <= capacity,
                0 <= stride,
        ;
    }
    let table: usize = match slots.checked_mul(SLOT_STRIDE) {
        Some(table) => table,
        None => return Err(ShmError::CapacityOverflow),
    };
    let buffer: usize = match capacity.checked_mul(stride) {
        Some(buffer) => buffer,
        None => return Err(ShmError::CapacityOverflow),
    };
    let start: usize = match buffer.checked_add(base) {
        Some(start) => start,
        None => return Err(ShmError::CapacityOverflow),
    };
    let len: usize = match start.checked_add(table) {
        Some(len) => len,
        None => return Err(ShmError::CapacityOverflow),
    };
    if len > MAX_FILE_LEN {
        return Err(ShmError::LengthLimit);
    }
    Ok(len)
}

/// Bytes of the region of a two-party ring.
pub fn region_len(capacity: usize, unit_size: usize) -> (r: Result<usize, ShmError>)
    ensures
        r == len_result(layout_len(capacity as int, unit_size as int, BUFFER_OFFSET as int, 0)),
{
    checked_len(capacity, unit_size, BUFFER_OFFSET, 0)
}

/// Bytes of the region of a gating ring: header, consumer table, buffer.
pub fn spmc_region_len(capacity: usize, unit_size: usize, max_consumers: usize) -> (r: Result<
    usize,
    ShmError,
>)
    ensures
        r == len_result(
            layout_len(
                capacity as int,
                unit_size as int,
                SPMC_TABLE_OFFSET as int,
                max_consumers as int,
            ),
        ),
{
    checked_len(capacity, unit_size, SPMC_TABLE_OFFSET, max_consumers)
}

/// Bytes of the region of a lossy ring: header and counters, buffer.
pub fn bcast_region_len(capacity: usize, stride: usize, buffer_offset: usize) -> (r: Result<
    usize,
    ShmError,
>)
    ensures
        r == len_result(layout_len(capacity as int, stride as int, buffer_offset as int, 0)),
{
    checked_len(capacity, stride, buffer_offset, 0)
}

/// Bytes of the region of an anchored ring: header and counters, anchor
/// table, buffer.
pub fn anch_region_len(
    capacity: usize,
    stride: usize,
    table_offset: usize,
    max_anchors: usize,
) -> (r: Result<usize, ShmError>)
    ensures
        r == len_result(
            layout_len(capacity as int, stride as int, table_offset as int, max_anchors as int),
        ),
{
    checked_len(capacity, stride, table_offset, max_anchors)
}

/// A control word.
pub open spec fn control(epoch: u32, state: u32) -> u64 {
    packed(state, epoch)
}

/// The epoch of a control word.
pub open spec fn epoch_of(control: u64) -> u32 {
    half_of(control, 4)
}

/// The state of a control word.
pub open spec fn state_of(control: u64) -> u32 {
    half_of(control, 0)
}

/// A control word: the epoch above, the state below.
pub fn control_word(epoch: u32, state: u32) -> (r: u64)
    ensures
        r == control(epoch, state),
        epoch_of(r) == epoch,
        state_of(r) == state,
{
    pack(state, epoch)
}

/// The epoch of a control word.
pub fn control_epoch(control: u64) -> (r: u32)
    ensures
        r == epoch_of(control),
{
    (control / 0x1_0000_0000) as u32
}

/// The state of a control word.
pub fn control_state(control: u64) -> (r: u32)
    ensures
        r == state_of(control),
{
    (control % 0x1_0000_0000) as u32
}

/// Whether a control word says that a consumer holds the slot: the only state
/// whose cursor holds the producer back.
pub fn control_is_active(control: u64) -> (r: bool)
    ensures
        r == (state_of(control) == STATE_ACTIVE),
{
    control_state(control) == STATE_ACTIVE
}

/// A control word is its epoch and its state.
pub proof fn a_control_word_is_its_halves(w: u64)
    ensures
        control(epoch_of(w), state_of(w)) == w,
{
}

/// A table of `max_slots` slots at `table_offset` lies in the region, past the
/// header.
pub open spec fn table_fits(region: Seq<u64>, table_offset: int, max_slots: int) -> bool {
    &&& table_offset % 8 == 0
    &&& table_offset >= BUFFER_OFFSET
    &&& 0 <= max_slots
    &&& table_offset / 8 + 16 * max_slots <= region.len()
}

/// The index of a word of a table slot.
pub open spec fn slot_word(table_offset: int, slot: int, field: int) -> int {
    table_offset / 8 + 16 * slot + field / 8
}

/// The index of a word of a table slot.
pub fn slot_at(table_offset: usize, slot: usize, field: usize) -> (r: usize)
    requires
        table_offset / 8 + 16 * slot + field / 8 <= usize::MAX,
    ensures
        r == slot_word(table_offset as int, slot as int, field as int),
{
    table_offset / 8 + 16 * slot + field / 8
}

/// The lease word of a slot.
pub open spec fn lease_at(region: Seq<u64>, table_offset: int, slot: int) -> u64 {
    region[slot_word(table_offset, slot, SLOT_LEASE as int)]
}

/// The control word of a slot.
pub open spec fn control_at(region: Seq<u64>, table_offset: int, slot: int) -> u64 {
    region[slot_word(table_offset, slot, SLOT_CONTROL as int)]
}

/// The cursor word of a slot.
pub open spec fn cursor_at(region: Seq<u64>, table_offset: int, slot: int) -> u64 {
    region[slot_word(table_offset, slot, SLOT_CURSOR as int)]
}

/// A table as the producer sees it.
pub open spec fn table_slots(region: Seq<u64>, table_offset: int, max_slots: int) -> Seq<GateSlot> {
    Seq::new(
        max_slots as nat,
        |k: int|
            GateSlot {
                active: state_of(control_at(region, table_offset, k)) == STATE_ACTIVE,
                cursor: cursor_at(region, table_offset, k),
            },
    )
}

/// The generation of a region while it is being initialised.
pub open spec fn opened_generation(g: u64) -> u64 {
    if g % 2 == 1 {
        g
    } else {
        (g + 1) as u64
    }
}

/// The generation of a region after it has been initialised.
pub open spec fn closed_generation(g: u64) -> u64 {
    opened_generation(g).wrapping_add(1)
}

/// Make the generation odd, so that whoever reads the region meanwhile
/// notices. The generation that was there before.
pub fn open_generation(region: &mut [u64]) -> (g: u64)
    requires
        old(region)@.len() >= 8,
    ensures
        g == word(old(region)@, OFF_GENERATION as int),
        final(region)@ == old(region)@.update(7, opened_generation(g)),
        word(final(region)@, OFF_GENERATION as int) % 2 == 1,
{
    let g: u64 = read_u64(region, OFF_GENERATION);
    let odd: u64 = if g % 2 == 1 {
        g
    } else {
        g + 1
    };
    store_u64(region, OFF_GENERATION, odd);
    g
}

/// Make the generation even again, and another one than before.
pub fn close_generation(region: &mut [u64], g: u64)
    requires
        old(region)@.len() >= 8,
    ensures
        final(region)@ == old(region)@.update(7, closed_generation(g)),
        closed_generation(g) % 2 == 0,
        closed_generation(g) != g,
{
    let odd: u64 = if g % 2 == 1 {
        g
    } else {
        g + 1
    };
    store_u64(region, OFF_GENERATION, odd.wrapping_add(1));
}

/// The slots that no consumer holds have the detached cursor.
pub open spec fn detached_table(i: int, table_offset: int, max_slots: int) -> bool {
    let k = i - table_offset / 8;
    0 <= k < 16 * max_slots && k % 16 == 2
}

/// Store the detached cursor in every slot of a table.
pub fn detach_cursors(region: &mut [u64], table_offset: usize, max_slots: usize)
    requires
        table_fits(old(region)@, table_offset as int, max_slots as int),
    ensures
        final(region)@ == Seq::new(
            old(region)@.len(),
            |i: int|
                if detached_table(i, table_offset as int, max_slots as int) {
                    DETACHED
                } else {
                    old(region)@[i]
                },
        ),
{
    let len: usize = region.len();
    let mut slot: usize = 0;
    while slot < max_slots
        invariant
            slot <= max_slots,
            len == region@.len(),
            len == old(region)@.len(),
            table_fits(region@, table_offset as int, max_slots as int),
            forall|j: int|
                0 <= j < len ==> #[trigger] region@[j] == (if detached_table(
                    j,
                    table_offset as int,
                    slot as int,
                ) {
                    DETACHED
                } else {
                    old(region)@[j]
                }),
        decreases max_slots - slot,
    {
        let at: usize = slot_at(table_offset, slot, SLOT_CURSOR);
        region[at] = DETACHED;
        slot += 1;
    }
    proof {
        assert(region@ =~= Seq::new(
            old(region)@.len(),
            |i: int|
                if detached_table(i, table_offset as int, max_slots as int) {
                    DETACHED
                } else {
                    old(region)@[i]
                },
        ));
    }
}

/// What a caller can tell from the kind of a failure: that somebody else is in
/// the way, that the producer is gone, that it asked for what cannot be had, or
/// that the region is not what it should be.
pub proof fn a_failure_is_of_the_kind_that_it_is(e: ShmError)
    ensures
        e.spec_kind() == ErrorKind::AddrInUse <==> (e == ShmError::RoleHeld || e
            == ShmError::ReinitializedWhileAttaching || e == ShmError::ConsumerTableFull || e
            == ShmError::AnchorTableFull),
        e.spec_kind() == ErrorKind::BrokenPipe <==> e == ShmError::Closed,
        e.spec_kind() == ErrorKind::InvalidInput <==> (e == ShmError::CapacityOverflow || e
            == ShmError::LengthLimit || e == ShmError::ZeroSized || e == ShmError::Overaligned || e
            == ShmError::SlackTooLarge || e == ShmError::NoConsumerSlots || e
            == ShmError::TooManyConsumerSlots || e == ShmError::NoAnchorSlots || e
            == ShmError::TooManyAnchorSlots || e == ShmError::ConsumerSlotOutOfRange || e
            == ShmError::AnchorSlotOutOfRange || e == ShmError::EpochMismatch),
{
}

} // verus!
