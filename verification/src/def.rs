//! Shared constants and the status enumerations kept in storage.
use vstd::prelude::*;

verus! {

/// The value of an erased flash byte.
pub const BYTE_ERASED: u8 = 0xFF;

/// The value of a fully written flash byte.
pub const BYTE_WRITTEN: u8 = 0x00;

/// A 32-bit erased word.
pub const DATA_UNUSED: u32 = 0xFFFF_FFFF;

/// The address that stands for "no such place".
pub const FAILED_ADDR: u32 = 0xFFFF_FFFF;

/// Maximum length of a KV name.
pub const KV_NAME_MAX: usize = 64;

/// Longest string value that `Kvdb::get_str` reads.
pub const STR_KV_VALUE_MAX_SIZE: usize = 128;

/// Timestamp type.
pub type FdbTime = i32;

/// Number of KV node states.
pub const KV_STATUS_NUM: usize = 6;

/// Number of TSL node states.
pub const TSL_STATUS_NUM: usize = 6;

/// Number of sector store states.
pub const SECTOR_STORE_STATUS_NUM: usize = 4;

/// Number of sector dirty states.
pub const SECTOR_DIRTY_STATUS_NUM: usize = 4;

/// The size in bytes of a status table with `status_number` states, one bit each.
pub fn status_table_size(status_number: usize) -> (r: usize)
    requires
        status_number + 7 <= usize::MAX,
    ensures
        r == (status_number + 7) / 8,
{
    (status_number + 7) / 8
}

/// Align `size` up to the write granularity, which is one byte.
pub fn wg_align(size: u32) -> (r: u32)
    ensures
        r == size,
{
    size
}

/// Align `size` down to a multiple of `align`.
pub fn align_down(size: u32, align: u32) -> (r: u32)
    requires
        align > 0,
    ensures
        r == size - size % align,
{
    proof {
        vstd::arithmetic::div_mod::lemma_fundamental_div_mod(size as int, align as int);
        vstd::arithmetic::mul::lemma_mul_is_commutative(align as int, size as int / align as int);
    }
    (size / align) * align
}

/// KV node status.
#[derive(Debug, Clone, Copy, PartialEq, Eq, Structural)]
pub enum KvStatus {
    /// Nothing was written here.
    Unused,
    /// The node is being written.
    PreWrite,
    /// The node is complete and live.
    Write,
    /// The node is about to be deleted.
    PreDelete,
    /// The node was deleted.
    Deleted,
    /// The node's header cannot be trusted.
    ErrHdr,
}

/// The KV status with table index `i`.
pub open spec fn kv_status_of(i: int) -> KvStatus {
    if i == 0 {
        KvStatus::Unused
    } else if i == 1 {
        KvStatus::PreWrite
    } else if i == 2 {
        KvStatus::Write
    } else if i == 3 {
        KvStatus::PreDelete
    } else if i == 4 {
        KvStatus::Deleted
    } else {
        KvStatus::ErrHdr
    }
}

/// The table index of a KV status.
pub open spec fn kv_index_of(s: KvStatus) -> int {
    match s {
        KvStatus::Unused => 0,
        KvStatus::PreWrite => 1,
        KvStatus::Write => 2,
        KvStatus::PreDelete => 3,
        KvStatus::Deleted => 4,
        KvStatus::ErrHdr => 5,
    }
}

impl KvStatus {
    /// The status with table index `i`.
    pub fn from_index(i: usize) -> (r: Self)
        ensures
            r == kv_status_of(i as int),
    {
        match i {
            0 => KvStatus::Unused,
            1 => KvStatus::PreWrite,
            2 => KvStatus::Write,
            3 => KvStatus::PreDelete,
            4 => KvStatus::Deleted,
            _ => KvStatus::ErrHdr,
        }
    }

    /// The table index of this status.
    pub fn index(self) -> (r: usize)
        ensures
            r == kv_index_of(self),
            r < KV_STATUS_NUM,
    {
        match self {
            KvStatus::Unused => 0,
            KvStatus::PreWrite => 1,
            KvStatus::Write => 2,
            KvStatus::PreDelete => 3,
            KvStatus::Deleted => 4,
            KvStatus::ErrHdr => 5,
        }
    }
}

/// Time-series log node status.
#[derive(Debug, Clone, Copy, PartialEq, Eq, Structural)]
pub enum TslStatus {
    /// Slot is erased / unused.
    Unused,
    /// The log index has been reserved but the write is not yet complete.
    PreWrite,
    /// The log has been written and is valid.
    Write,
    /// User-defined status #1.
    UserStatus1,
    /// The log has been (logically) deleted.
    Deleted,
    /// User-defined status #2.
    UserStatus2,
}

/// The TSL status with table index `i`.
pub open spec fn tsl_status_of(i: int) -> TslStatus {
    if i == 0 {
        TslStatus::Unused
    } else if i == 1 {
        TslStatus::PreWrite
    } else if i == 2 {
        TslStatus::Write
    } else if i == 3 {
        TslStatus::UserStatus1
    } else if i == 4 {
        TslStatus::Deleted
    } else {
        TslStatus::UserStatus2
    }
}

/// The table index of a TSL status.
pub open spec fn tsl_index_of(s: TslStatus) -> int {
    match s {
        TslStatus::Unused => 0,
        TslStatus::PreWrite => 1,
        TslStatus::Write => 2,
        TslStatus::UserStatus1 => 3,
        TslStatus::Deleted => 4,
        TslStatus::UserStatus2 => 5,
    }
}

impl TslStatus {
    /// The status with table index `i`.
    pub fn from_index(i: usize) -> (r: Self)
        ensures
            r == tsl_status_of(i as int),
    {
        match i {
            0 => TslStatus::Unused,
            1 => TslStatus::PreWrite,
            2 => TslStatus::Write,
            3 => TslStatus::UserStatus1,
            4 => TslStatus::Deleted,
            _ => TslStatus::UserStatus2,
        }
    }

    /// The table index of this status.
    pub fn index(self) -> (r: usize)
        ensures
            r == tsl_index_of(self),
            r < TSL_STATUS_NUM,
    {
        match self {
            TslStatus::Unused => 0,
            TslStatus::PreWrite => 1,
            TslStatus::Write => 2,
            TslStatus::UserStatus1 => 3,
            TslStatus::Deleted => 4,
            TslStatus::UserStatus2 => 5,
        }
    }
}

/// Sector store status.
#[derive(Debug, Clone, Copy, PartialEq, Eq, Structural)]
pub enum SectorStoreStatus {
    /// Not formatted.
    Unused,
    /// Formatted, holding nothing.
    Empty,
    /// Holding data, with room left.
    Using,
    /// Holding data, with no room left.
    Full,
}

/// The sector store status with table index `i`.
pub open spec fn store_status_of(i: int) -> SectorStoreStatus {
    if i == 1 {
        SectorStoreStatus::Empty
    } else if i == 2 {
        SectorStoreStatus::Using
    } else if i == 3 {
        SectorStoreStatus::Full
    } else {
        SectorStoreStatus::Unused
    }
}

/// The table index of a sector store status.
pub open spec fn store_index_of(s: SectorStoreStatus) -> int {
    match s {
        SectorStoreStatus::Unused => 0,
        SectorStoreStatus::Empty => 1,
        SectorStoreStatus::Using => 2,
        SectorStoreStatus::Full => 3,
    }
}

impl SectorStoreStatus {
    /// The status with table index `i`.
    pub fn from_index(i: usize) -> (r: Self)
        ensures
            r == store_status_of(i as int),
    {
        match i {
            1 => SectorStoreStatus::Empty,
            2 => SectorStoreStatus::Using,
            3 => SectorStoreStatus::Full,
            _ => SectorStoreStatus::Unused,
        }
    }

    /// The table index of this status.
    pub fn index(self) -> (r: usize)
        ensures
            r == store_index_of(self),
            r < SECTOR_STORE_STATUS_NUM,
    {
        match self {
            SectorStoreStatus::Unused => 0,
            SectorStoreStatus::Empty => 1,
            SectorStoreStatus::Using => 2,
            SectorStoreStatus::Full => 3,
        }
    }
}

/// Sector dirty status.
#[derive(Debug, Clone, Copy, PartialEq, Eq, Structural)]
pub enum SectorDirtyStatus {
    /// Not formatted.
    Unused,
    /// Nothing in the sector was deleted.
    False,
    /// Something in the sector was deleted.
    True,
    /// The sector is being collected.
    Gc,
}

/// The sector dirty status with table index `i`.
pub open spec fn dirty_status_of(i: int) -> SectorDirtyStatus {
    if i == 1 {
        SectorDirtyStatus::False
    } else if i == 2 {
        SectorDirtyStatus::True
    } else if i == 3 {
        SectorDirtyStatus::Gc
    } else {
        SectorDirtyStatus::Unused
    }
}

/// The table index of a sector dirty status.
pub open spec fn dirty_index_of(s: SectorDirtyStatus) -> int {
    match s {
        SectorDirtyStatus::Unused => 0,
        SectorDirtyStatus::False => 1,
        SectorDirtyStatus::True => 2,
        SectorDirtyStatus::Gc => 3,
    }
}

impl SectorDirtyStatus {
    /// The status with table index `i`.
    pub fn from_index(i: usize) -> (r: Self)
        ensures
            r == dirty_status_of(i as int),
    {
        match i {
            1 => SectorDirtyStatus::False,
            2 => SectorDirtyStatus::True,
            3 => SectorDirtyStatus::Gc,
            _ => SectorDirtyStatus::Unused,
        }
    }

    /// The table index of this status.
    pub fn index(self) -> (r: usize)
        ensures
            r == dirty_index_of(self),
            r < SECTOR_DIRTY_STATUS_NUM,
    {
        match self {
            SectorDirtyStatus::Unused => 0,
            SectorDirtyStatus::False => 1,
            SectorDirtyStatus::True => 2,
            SectorDirtyStatus::Gc => 3,
        }
    }
}

/// Table indices and statuses name each other: a status written by its index is
/// the status read back.
pub proof fn status_indices_round_trip(
    k: KvStatus,
    t: TslStatus,
    s: SectorStoreStatus,
    d: SectorDirtyStatus,
)
    ensures
        kv_status_of(kv_index_of(k)) == k,
        tsl_status_of(tsl_index_of(t)) == t,
        store_status_of(store_index_of(s)) == s,
        dirty_status_of(dirty_index_of(d)) == d,
{
}

} // verus!
