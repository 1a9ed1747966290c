//! The key-value database over its medium: what the bytes of a sector mean, and
//! what each operation does to them.
//!
//! A sector starts with a header of 16 bytes; KV nodes follow it one after the
//! other, each with a header of 24 bytes, its name and its value:
//!
//! | sector header | | node header | |
//! |---|---|---|---|
//! | 0 | store status | 0 | node status |
//! | 1 | dirty status | 4 | magic word |
//! | 4 | magic word | 8 | node length |
//! | 8 | combined | 12 | CRC-32 |
//! | 12 | reserved | 16 | name length |
//! | | | 20 | value length |
use vstd::prelude::*;

use crate::codec;
use crate::crc32;
use crate::db;
use crate::db::Geo;
use crate::def;
use crate::def::{KvStatus, SectorDirtyStatus, SectorStoreStatus, FAILED_ADDR, KV_NAME_MAX};
use crate::error::{FdbError, Result};
use crate::flash;
use crate::status;
use crate::storage;
use crate::storage::Medium;

verus! {

/// Magic word of a sector.
pub const SECTOR_MAGIC_WORD: u32 = 0x3042_4446;

/// Magic word of a KV node (`K`, `V`, `0`, `0`).
pub const KV_MAGIC_WORD: u32 = 0x3030_564B;

/// Size of a sector header.
pub const SECTOR_HDR_DATA_SIZE: u32 = 16;

/// Offset of the dirty status in a sector header.
pub const SECTOR_DIRTY_OFFSET: u32 = 1;

/// Offset of the magic word in a sector header.
pub const SECTOR_MAGIC_OFFSET: u32 = 4;

/// Size of a KV node header.
pub const KV_HDR_DATA_SIZE: u32 = 24;

/// Offset of the magic word in a KV node header.
pub const KV_MAGIC_OFFSET: u32 = 4;

/// Value of the combined word of a sector that stands alone.
pub const SECTOR_NOT_COMBINED: u32 = 0xFFFF_FFFF;

/// Value of the combined word of a sector that was joined to another.
pub const SECTOR_COMBINED: u32 = 0x0000_0000;

/// Room that must be left in a sector after a node: a node header and the longest name.
pub const SEC_REMAIN_THRESHOLD: i64 = 88;

/// With no more than this many empty sectors, garbage is collected before one is used.
pub const GC_EMPTY_SEC_THRESHOLD: usize = 1;

/// A KV node as it was read: `at` is its address, `value_at` that of its value.
pub struct Node {
    pub status: KvStatus,
    pub crc_ok: bool,
    pub name_len: int,
    pub len: int,
    pub value_len: int,
    pub name: Seq<u8>,
    pub at: int,
    pub value_at: int,
}

/// A sector as it was read: `remain` is the room left in it and `empty` the address
/// where the next node goes.
pub struct SecInfo {
    pub check_ok: bool,
    pub store: SectorStoreStatus,
    pub dirty: SectorDirtyStatus,
    pub at: int,
    pub combined: int,
    pub remain: int,
    pub empty: int,
}

/// The state of a key-value database.
pub struct KvState {
    pub m: Medium,
    pub geo: Geo,
    pub oldest: int,
    pub ready: bool,
    pub fixed: bool,
    pub gc_request: bool,
    pub recovering: bool,
    pub defaults: Seq<(Seq<u8>, Seq<u8>)>,
}

/// `x`, or the largest address where `x` lies beyond it.
pub open spec fn sat(x: int) -> int {
    if x > 0xFFFF_FFFF {
        0xFFFF_FFFF
    } else {
        x
    }
}

/// The smaller of two numbers.
pub open spec fn least(a: int, b: int) -> int {
    if a <= b {
        a
    } else {
        b
    }
}

/// The node that nothing has been read into yet.
pub open spec fn blank_node() -> Node {
    Node {
        status: KvStatus::Unused,
        crc_ok: false,
        name_len: 0,
        len: 0,
        value_len: 0,
        name: flash::zeros(KV_NAME_MAX as int),
        at: FAILED_ADDR as int,
        value_at: FAILED_ADDR as int,
    }
}

/// The sector that nothing has been read into yet.
pub open spec fn blank_sector() -> SecInfo {
    SecInfo {
        check_ok: false,
        store: SectorStoreStatus::Unused,
        dirty: SectorDirtyStatus::Unused,
        at: 0,
        combined: SECTOR_NOT_COMBINED as int,
        remain: 0,
        empty: FAILED_ADDR as int,
    }
}

/// Whether a geometry is one that the database works on: it is valid, a sector can
/// hold a sector header, and the addresses of a walk past the end still fit 32 bits.
pub open spec fn geo_ok(geo: Geo) -> bool {
    db::geo_fits(geo) && geo.sec >= 16
}

/// Whether the lengths of the default nodes fit 32 bits.
pub open spec fn defaults_ok(defaults: Seq<(Seq<u8>, Seq<u8>)>) -> bool {
    forall|i: int|
        0 <= i < defaults.len() ==> record_len((#[trigger] defaults[i]).0, defaults[i].1)
            <= 0xFFFF_FFFF
}

/// What holds of every database: its geometry, that the oldest sector is one, and that
/// the default nodes can be.
pub open spec fn state_ok(st: KvState) -> bool {
    geo_ok(st.geo) && db::is_sector(st.geo, st.oldest) && defaults_ok(st.defaults)
}

// ------------------------------------------------------------------- reading nodes

/// What `buf` holds after its first `k` bytes were read from `addr`.
pub open spec fn fetch_head(m: Medium, addr: int, buf: Seq<u8>, k: int) -> Seq<u8> {
    m.fetch(addr, buf.subrange(0, k)) + buf.subrange(k, buf.len() as int)
}

/// The CRC of the `total` bytes from `at` on, of which `done` are done with the CRC
/// `crc`, read in pieces through the buffer `buf`.
pub open spec fn crc_stream(
    m: Medium,
    at: int,
    total: int,
    done: int,
    buf: Seq<u8>,
    crc: u32,
) -> u32
    decreases total - done,
{
    if done >= total {
        crc
    } else {
        let size = least(32, total - done);
        let next = fetch_head(m, at + done, buf, size);
        crc_stream(m, at, total, done + size, next, crc32::crc32(crc, next.subrange(0, size)))
    }
}

/// The header of the node at `at`.
pub open spec fn node_header(m: Medium, at: int) -> Seq<u8> {
    m.fetch(at, flash::zeros(24))
}

/// Whether a node header's length can be.
pub open spec fn node_len_ok(geo: Geo, hdr: Seq<u8>) -> bool {
    24 <= codec::le32(hdr, 8) <= geo.max
}

/// The status in a node header.
pub open spec fn node_status(hdr: Seq<u8>) -> KvStatus {
    def::kv_status_of(status::decode_status(hdr.subrange(0, 1), 6))
}

/// The CRC over the lengths in the header of the node at `at` and its data.
pub open spec fn node_crc(m: Medium, at: int, hdr: Seq<u8>) -> u32 {
    crc_stream(
        m,
        at + 24,
        codec::le32(hdr, 8) - 24,
        0,
        flash::zeros(32),
        crc32::crc32(crc32::crc32(0, hdr.subrange(16, 20)), hdr.subrange(20, 24)),
    )
}

/// Whether the node at `at` has a length that can be and the CRC that it claims.
pub open spec fn node_sound(m: Medium, geo: Geo, at: int) -> bool {
    let hdr = node_header(m, at);
    node_len_ok(geo, hdr) && node_crc(m, at, hdr) as int == codec::le32(hdr, 12)
}

/// The medium after reading the node at `at`: a node whose length cannot be is
/// marked as such.
#[verifier::opaque]
pub open spec fn after_read(m: Medium, geo: Geo, at: int) -> Medium {
    let hdr = node_header(m, at);
    if !node_len_ok(geo, hdr) && node_status(hdr) != KvStatus::ErrHdr {
        flash::put_status(m, at, def::kv_index_of(KvStatus::ErrHdr), true)
    } else {
        m
    }
}

/// What the node object `n` holds after reading the node at its address.
#[verifier::opaque]
pub open spec fn read_node(m: Medium, geo: Geo, n: Node) -> Node {
    let hdr = node_header(m, n.at);
    let name_len = hdr[16] as int;
    if !node_len_ok(geo, hdr) {
        Node { status: KvStatus::ErrHdr, crc_ok: false, len: 24, ..n }
    } else {
        let name = fetch_head(m, n.at + 24, n.name, least(name_len, KV_NAME_MAX as int));
        if node_sound(m, geo, n.at) {
            Node {
                status: node_status(hdr),
                crc_ok: true,
                len: codec::le32(hdr, 8),
                name: if name_len < KV_NAME_MAX {
                    name.update(name_len, 0)
                } else {
                    name
                },
                name_len,
                value_len: codec::le32(hdr, 20),
                value_at: sat(n.at + 24 + name_len),
                at: n.at,
            }
        } else {
            Node {
                status: node_status(hdr),
                crc_ok: false,
                len: codec::le32(hdr, 8),
                name,
                name_len,
                ..n
            }
        }
    }
}

/// The first node in the window of 28 places at `start`, from place `i` on, whose
/// magic word stands in the window and that does not start before `floor`.
pub open spec fn mark_in_window(bytes: Seq<u8>, start: int, i: int, floor: int) -> Option<int>
    decreases 28 - i,
{
    if i >= 28 {
        None
    } else if codec::le32(bytes, start + i) == KV_MAGIC_WORD && start + i - 4 >= floor {
        Some(start + i - 4)
    } else {
        mark_in_window(bytes, start, i + 1, floor)
    }
}

/// The first node that starts at `floor` or behind and whose magic word stands at
/// `start` or behind, looking through windows that end before `end` and lie within `bytes`.
pub open spec fn next_mark(bytes: Seq<u8>, start: int, end: int, floor: int) -> Option<int>
    decreases end - start,
{
    if start + 32 < end && start + 32 <= bytes.len() {
        match mark_in_window(bytes, start, 0, floor) {
            Some(a) => Some(a),
            None => next_mark(bytes, start + 28, end, floor),
        }
    } else {
        None
    }
}

/// Whether the power went away while the data of `n` was written: the header is whole,
/// and its length can be relied on.
pub open spec fn half_written(n: Node) -> bool {
    &&& !n.crc_ok
    &&& n.len > 24
    &&& n.status == KvStatus::PreWrite || n.status == KvStatus::ErrHdr
}

/// The address of the node behind `n` in the sector `s`.
#[verifier::opaque]
pub open spec fn next_node(bytes: Seq<u8>, geo: Geo, s: SecInfo, n: Node) -> Option<int> {
    if s.store == SectorStoreStatus::Empty {
        None
    } else if n.at == FAILED_ADDR {
        Some(s.at + 16)
    } else if n.at <= s.at + geo.sec && n.len != 0 {
        let from = if n.crc_ok || half_written(n) {
            n.at + n.len
        } else {
            n.at + 1
        };
        next_mark(bytes, from, s.at + geo.sec - 16, from)
    } else {
        None
    }
}

// ----------------------------------------------------------------- reading sectors

/// The sector whose header stands at `at`, without its nodes.
#[verifier::opaque]
pub open spec fn sector_head(m: Medium, at: int) -> SecInfo {
    let hdr = m.fetch(at, flash::zeros(16));
    let combined = codec::le32(hdr, 8);
    if codec::le32(hdr, 4) != SECTOR_MAGIC_WORD || (combined != SECTOR_NOT_COMBINED && combined
        != SECTOR_COMBINED) {
        SecInfo { at, ..blank_sector() }
    } else {
        SecInfo {
            check_ok: true,
            store: def::store_status_of(status::decode_status(hdr.subrange(0, 1), 4)),
            dirty: def::dirty_status_of(status::decode_status(hdr.subrange(1, 2), 4)),
            at,
            combined,
            remain: 0,
            empty: FAILED_ADDR as int,
        }
    }
}

/// What reading a sector header reports.
pub open spec fn head_result(s: SecInfo) -> Result<()> {
    if s.check_ok {
        Ok(())
    } else {
        Err(FdbError::InitFailed)
    }
}

/// A walk over the nodes of the sector `s` from the node object `n` on that takes the
/// room behind the last of them for free.
pub open spec fn tally(m: Medium, geo: Geo, s: SecInfo, n: Node) -> (Medium, SecInfo, Result<()>)
    decreases s.at + geo.sec - n.at,
{
    let m1 = after_read(m, geo, n.at);
    let n1 = read_node(m, geo, n);
    if !n1.crc_ok && n1.status != KvStatus::PreWrite && n1.status != KvStatus::ErrHdr {
        (m1, SecInfo { remain: 0, ..s }, Err(FdbError::ReadErr))
    } else {
        let end = n1.at + n1.len;
        let s1 = SecInfo { empty: sat(end), remain: s.at + geo.sec - end, ..s };
        match next_node(m1.bytes, geo, s1, n1) {
            None => (m1, s1, Ok(())),
            Some(a) => {
                if n.at < a <= s.at + geo.sec {
                    tally(m1, geo, s1, Node { at: a, ..n1 })
                } else {
                    (m1, s1, Ok(()))
                }
            },
        }
    }
}

/// The sector whose header stands at `at`, with its room found from its nodes: the
/// medium after reading it, the sector, and what reading it reports.
pub open spec fn sector_full(m: Medium, geo: Geo, at: int) -> (Medium, SecInfo, Result<()>) {
    let s = sector_head(m, at);
    if !s.check_ok {
        (m, s, Err(FdbError::InitFailed))
    } else {
        let s0 = SecInfo { empty: at + 16, ..s };
        if s.store == SectorStoreStatus::Empty {
            (m, SecInfo { remain: geo.sec - 16, ..s0 }, Ok(()))
        } else if s.store == SectorStoreStatus::Using {
            let (m1, s1, r) = tally(
                m,
                geo,
                SecInfo { remain: geo.sec - 16, ..s0 },
                Node { at: at + 16, ..blank_node() },
            );
            let ff = flash::seen_tail(m1, s1.empty, at + geo.sec);
            if s1.empty != ff {
                (m1, SecInfo { empty: ff, remain: geo.sec - (ff - at), ..s1 }, r)
            } else {
                (m1, s1, r)
            }
        } else {
            (m, s0, Ok(()))
        }
    }
}

/// The address of the sector behind `s` on a walk that has come past `traversed` bytes.
pub open spec fn next_sector(geo: Geo, s: SecInfo, traversed: int) -> Option<int> {
    let block = if s.combined == SECTOR_NOT_COMBINED {
        geo.sec
    } else {
        0
    };
    if traversed + block <= geo.max {
        if s.at + block < geo.max {
            Some(s.at + block)
        } else {
            Some(0)
        }
    } else {
        None
    }
}

/// The next sector is a sector.
pub proof fn lemma_next_sector(geo: Geo, s: SecInfo, traversed: int)
    requires
        geo_ok(geo),
        db::is_sector(geo, s.at),
    ensures
        next_sector(geo, s, traversed) matches Some(a) ==> db::is_sector(geo, a) && traversed
            <= geo.max,
{
    db::lemma_geo(geo);
    vstd::arithmetic::div_mod::lemma_mod_add_multiples_vanish(s.at, geo.sec);
    vstd::arithmetic::div_mod::lemma_small_mod(0, geo.sec as nat);
    if s.at + geo.sec < geo.max {
        db::lemma_aligned(geo, s.at + geo.sec);
    }
}

// ------------------------------------------------------------------------- writing

/// The header of a freshly formatted sector.
pub open spec fn fresh_sector_header(combined: int) -> Seq<u8> {
    seq![status::status_byte(1), status::status_byte(1), 0xFFu8, 0xFFu8] + codec::le32_bytes(SECTOR_MAGIC_WORD as int)
        + codec::le32_bytes(combined) + flash::erased(4)
}

/// Formatting the sector at `at`.
pub open spec fn format(m: Medium, geo: Geo, at: int, combined: int) -> (Medium, Result<()>) {
    let m1 = m.erase(at, geo.sec);
    match storage::erase_result(m, at, geo.sec) {
        Err(e) => (m1, Err(e)),
        Ok(_) => (
            m1.program(at, fresh_sector_header(combined), true),
            storage::program_result(m1, at, 16),
        ),
    }
}

/// Noting in its header that the sector `s` takes in a node of `kv_len` bytes; the
/// result says whether it became full.
pub open spec fn note_use(m: Medium, s: SecInfo, kv_len: int) -> (Medium, Result<bool>) {
    if s.store == SectorStoreStatus::Empty {
        match flash::put_status_result(m, s.at, 2) {
            Err(e) => (flash::put_status(m, s.at, 2, true), Err(e)),
            Ok(_) => (flash::put_status(m, s.at, 2, true), Ok(false)),
        }
    } else if s.store == SectorStoreStatus::Using && (s.remain < SEC_REMAIN_THRESHOLD || s.remain
        - kv_len < SEC_REMAIN_THRESHOLD) {
        match flash::put_status_result(m, s.at, 3) {
            Err(e) => (flash::put_status(m, s.at, 3, true), Err(e)),
            Ok(_) => (flash::put_status(m, s.at, 3, true), Ok(true)),
        }
    } else {
        (m, Ok(false))
    }
}

/// The length of a node with this name and value.
pub open spec fn record_len(name: Seq<u8>, value: Seq<u8>) -> int {
    24 + name.len() as int + value.len() as int
}

/// The CRC that a node with this name and value claims.
pub open spec fn record_crc(name: Seq<u8>, value: Seq<u8>) -> u32 {
    let lens = seq![name.len() as u8, 0xFFu8, 0xFFu8, 0xFFu8];
    crc32::crc32(crc32::crc32(crc32::crc32(crc32::crc32(0, lens), codec::le32_bytes(value.len() as int)), name), value)
}

/// The header of a node with this name and value, status erased.
pub open spec fn record_header(name: Seq<u8>, value: Seq<u8>) -> Seq<u8> {
    flash::erased(4) + codec::le32_bytes(KV_MAGIC_WORD as int) + codec::le32_bytes(record_len(name, value))
        + codec::le32_bytes(record_crc(name, value) as int) + seq![
        name.len() as u8,
        0xFFu8,
        0xFFu8,
        0xFFu8,
    ] + codec::le32_bytes(value.len() as int)
}

/// Writing a node header at `at`: the status that says it is being written, then the rest.
pub open spec fn write_header(m: Medium, at: int, hdr: Seq<u8>) -> (Medium, Result<()>) {
    let m1 = flash::put_status(m, at, 1, false);
    match flash::put_status_result(m, at, 1) {
        Err(e) => (m1, Err(e)),
        Ok(_) => (
            m1.program(at + 4, hdr.subrange(4, hdr.len() as int), false),
            storage::program_result(m1, at + 4, hdr.len() - 4),
        ),
    }
}

/// Writing a whole node at `at`: header, name, value, and last the status that says
/// it is live.
pub open spec fn write_record(
    m: Medium,
    at: int,
    name: Seq<u8>,
    value: Seq<u8>,
) -> (Medium, Result<()>) {
    let (m1, r1) = write_header(m, at, record_header(name, value));
    match r1 {
        Err(e) => (m1, Err(e)),
        Ok(_) => {
            let m2 = flash::put_data(m1, at + 24, name);
            match flash::put_data_result(m1, at + 24, name) {
                Err(e) => (m2, Err(e)),
                Ok(_) => {
                    let m3 = flash::put_data(m2, at + 24 + name.len(), value);
                    match flash::put_data_result(m2, at + 24 + name.len(), value) {
                        Err(e) => (m3, Err(e)),
                        Ok(_) => (flash::put_status(m3, at, 2, true), flash::put_status_result(m3, at, 2)),
                    }
                },
            }
        },
    }
}

/// How many sectors are empty and how many are in use, on a walk from `at` on that
/// has come past `traversed` bytes.
pub open spec fn count_sectors(m: Medium, geo: Geo, at: int, traversed: int) -> (int, int)
    decreases geo.max - traversed,
{
    if geo.sec <= 0 {
        (0, 0)
    } else {
        let s = sector_head(m, at);
        let e: int = if s.check_ok && s.store == SectorStoreStatus::Empty {
            1
        } else {
            0
        };
        let u: int = if s.check_ok && s.store == SectorStoreStatus::Using {
            1
        } else {
            0
        };
        match next_sector(geo, s, traversed + geo.sec) {
            None => (e, u),
            Some(a) => {
                if traversed >= geo.max {
                    (e, u)
                } else {
                    let (e1, u1) = count_sectors(m, geo, a, traversed + geo.sec);
                    (e + e1, u + u1)
                }
            },
        }
    }
}

/// Whether a sector can take in a node of `size` bytes.
pub open spec fn roomy(s: SecInfo, size: int, gc_request: bool) -> bool {
    s.check_ok && s.remain > size + SEC_REMAIN_THRESHOLD && (s.dirty == SectorDirtyStatus::False
        || (s.dirty == SectorDirtyStatus::True && !gc_request))
}

/// The first sector with store status `want` that can take in a node of `size` bytes,
/// on a walk from `at` on that has come past `traversed` bytes.
pub open spec fn alloc_scan(
    m: Medium,
    geo: Geo,
    gc_request: bool,
    want: SectorStoreStatus,
    size: int,
    at: int,
    traversed: int,
) -> (Medium, Option<SecInfo>)
    decreases geo.max - traversed,
{
    let h = sector_head(m, at);
    let (m1, s) = if h.store == want {
        (sector_full(m, geo, at).0, sector_full(m, geo, at).1)
    } else {
        (m, h)
    };
    if h.store == want && roomy(s, size, gc_request) {
        (m1, Some(s))
    } else {
        match next_sector(geo, s, traversed + geo.sec) {
            None => (m1, None),
            Some(a) => {
                if geo.sec <= 0 || traversed >= geo.max {
                    (m1, None)
                } else {
                    alloc_scan(m1, geo, gc_request, want, size, a, traversed + geo.sec)
                }
            },
        }
    }
}

/// Finding room for a node of `size` bytes: in a sector in use, else in an empty one
/// as long as it is not the last; that it is, asks for garbage collection.
#[verifier::opaque]
pub open spec fn find_room(st: KvState, size: int) -> (KvState, Option<SecInfo>) {
    let (e, u) = count_sectors(st.m, st.geo, st.oldest, 0);
    let (m1, s1) = if u > 0 {
        alloc_scan(
            st.m,
            st.geo,
            st.gc_request,
            SectorStoreStatus::Using,
            size,
            st.oldest,
            0,
        )
    } else {
        (st.m, None)
    };
    if s1 is Some || e == 0 {
        (KvState { m: m1, ..st }, s1)
    } else if e > GC_EMPTY_SEC_THRESHOLD || st.gc_request {
        let (m2, s2) = alloc_scan(
            m1,
            st.geo,
            st.gc_request,
            SectorStoreStatus::Empty,
            size,
            st.oldest,
            0,
        );
        (KvState { m: m2, ..st }, s2)
    } else {
        (KvState { m: m1, gc_request: true, ..st }, None)
    }
}

// ------------------------------------------------------------------------- finding

/// Whether the node object `n` is a live node with this name.
pub open spec fn is_live(n: Node, key: Seq<u8>) -> bool {
    &&& n.crc_ok
    &&& n.status == KvStatus::Write
    &&& n.name_len == key.len()
    &&& n.name_len <= KV_NAME_MAX
    &&& n.name.subrange(0, n.name_len) == key
}

/// Looking for a live node with this name among the nodes of the sector `s`, from the
/// node object `n` on.
pub open spec fn find_in_sector(
    m: Medium,
    geo: Geo,
    s: SecInfo,
    n: Node,
    key: Seq<u8>,
) -> (Medium, Node, bool)
    decreases s.at + geo.sec - n.at,
{
    let m1 = after_read(m, geo, n.at);
    let n1 = read_node(m, geo, n);
    if is_live(n1, key) {
        (m1, n1, true)
    } else {
        match next_node(m1.bytes, geo, s, n1) {
            None => (m1, n1, false),
            Some(a) => {
                if n.at < a <= s.at + geo.sec {
                    find_in_sector(m1, geo, s, Node { at: a, ..n1 }, key)
                } else {
                    (m1, n1, false)
                }
            },
        }
    }
}

/// Whether a sector holds nodes.
pub open spec fn has_nodes(s: SecInfo) -> bool {
    s.check_ok && (s.store == SectorStoreStatus::Using || s.store == SectorStoreStatus::Full)
}

/// Looking for a live node with this name in all sectors, on a walk from `at` on that
/// has come past `traversed` bytes.
pub open spec fn find_from(
    m: Medium,
    geo: Geo,
    key: Seq<u8>,
    at: int,
    traversed: int,
    n: Node,
) -> (Medium, Node, bool)
    decreases geo.max - traversed,
{
    let s = sector_head(m, at);
    let (m1, n1, found) = if has_nodes(s) {
        find_in_sector(m, geo, s, Node { at: at + 16, ..n }, key)
    } else {
        (m, n, false)
    };
    if found {
        (m1, n1, true)
    } else {
        match next_sector(geo, s, traversed + geo.sec) {
            None => (m1, n1, false),
            Some(a) => {
                if geo.sec <= 0 || traversed >= geo.max {
                    (m1, n1, false)
                } else {
                    find_from(m1, geo, key, a, traversed + geo.sec, n1)
                }
            },
        }
    }
}

/// Looking for a live node with this name in all sectors, the oldest first.
#[verifier::opaque]
pub open spec fn find(st: KvState, key: Seq<u8>) -> (Medium, Node, bool) {
    find_from(st.m, st.geo, key, st.oldest, 0, blank_node())
}

// ------------------------------------------------------------------------ deleting

/// The address of the dirty status of the sector that `at` lies in.
pub open spec fn dirty_place(geo: Geo, at: int) -> int {
    at - at % geo.sec + 1
}

/// Marking the node at `at` as about to be deleted, or as deleted, and its sector as dirty.
#[verifier::opaque]
pub open spec fn delete_at(m: Medium, geo: Geo, at: int, complete: bool) -> (Medium, Result<()>) {
    let i = if complete {
        def::kv_index_of(KvStatus::Deleted)
    } else {
        def::kv_index_of(KvStatus::PreDelete)
    };
    let m1 = flash::put_status(m, at, i, complete);
    match flash::put_status_result(m, at, i) {
        Err(e) => (m1, Err(e)),
        Ok(_) => {
            let d = dirty_place(geo, at);
            if flash::status_at(m1, d, 4) == 1 {
                (flash::put_status(m1, d, 2, true), flash::put_status_result(m1, d, 2))
            } else {
                (m1, Ok(()))
            }
        },
    }
}

/// Deleting by name.
pub open spec fn delete(st: KvState, key: Seq<u8>) -> (KvState, Result<()>) {
    let (m1, n, found) = find(st, key);
    if found {
        let (m2, r) = delete_at(m1, st.geo, n.at, true);
        (KvState { m: m2, ..st }, r)
    } else {
        (KvState { m: m1, ..st }, Err(FdbError::KvNameErr))
    }
}

// -------------------------------------------------------------- garbage collection

/// Copying `total` bytes from `src` to `dst`, of which `done` are done, through the
/// buffer `buf`.
pub open spec fn copy_data(
    m: Medium,
    src: int,
    dst: int,
    total: int,
    done: int,
    buf: Seq<u8>,
) -> (Medium, Result<()>)
    decreases total - done,
{
    if done >= total {
        (m, Ok(()))
    } else {
        let size = least(32, total - done);
        let next = fetch_head(m, src + done, buf, size);
        let m1 = m.program(dst + done, next.subrange(0, size), true);
        match storage::program_result(m, dst + done, size) {
            Err(e) => (m1, Err(e)),
            Ok(_) => copy_data(m1, src, dst, total, done + size, next),
        }
    }
}

/// Copying the node `n` to the free place of the sector `s`.
pub open spec fn move_body(m: Medium, n: Node, s: SecInfo) -> (Medium, Result<()>) {
    let (m1, r1) = note_use(m, s, n.len);
    match r1 {
        Err(e) => (m1, Err(e)),
        Ok(_) => {
            let m2 = flash::put_status(m1, s.empty, 1, false);
            match flash::put_status_result(m1, s.empty, 1) {
                Err(e) => (m2, Err(e)),
                Ok(_) => {
                    let (m3, r3) = copy_data(m2, n.at + 4, s.empty + 4, n.len - 4, 0, flash::zeros(32));
                    match r3 {
                        Err(e) => (m3, Err(e)),
                        Ok(_) => (flash::put_status(m3, s.empty, 2, true), flash::put_status_result(m3, s.empty, 2)),
                    }
                },
            }
        },
    }
}

/// Moving the node `n` to another sector. A node that was about to be deleted when
/// the power was lost is dropped where a live node with its name exists.
#[verifier::opaque]
pub open spec fn move_node(st: KvState, n: Node) -> (KvState, Result<()>) {
    let m0 = if n.status == KvStatus::Write {
        delete_at(st.m, st.geo, n.at, false).0
    } else {
        st.m
    };
    let (st1, slot) = find_room(KvState { m: m0, ..st }, n.len);
    match slot {
        None => (st1, Err(FdbError::SavedFull)),
        Some(s) => {
            let twin = if st.recovering && n.status == KvStatus::PreDelete && n.name_len
                <= KV_NAME_MAX {
                find(st1, n.name.subrange(0, n.name_len))
            } else {
                (st1.m, blank_node(), false)
            };
            let (m2, r) = if twin.2 {
                (twin.0, Ok(()))
            } else {
                move_body(twin.0, n, s)
            };
            let m3 = delete_at(m2, st.geo, n.at, true).0;
            (KvState { m: m3, ..st1 }, r)
        },
    }
}

/// Moving every live node of the sector `s` elsewhere, from the node object `n` on.
pub open spec fn evacuate(st: KvState, s: SecInfo, n: Node) -> KvState
    decreases s.at + st.geo.sec - n.at,
{
    let m1 = after_read(st.m, st.geo, n.at);
    let n1 = read_node(st.m, st.geo, n);
    let st1 = KvState { m: m1, ..st };
    let st2 = if n1.crc_ok && (n1.status == KvStatus::Write || n1.status == KvStatus::PreDelete) {
        move_node(st1, n1).0
    } else {
        st1
    };
    match next_node(st2.m.bytes, st.geo, s, n1) {
        None => st2,
        Some(a) => {
            if n.at < a <= s.at + st.geo.sec {
                evacuate(KvState { geo: st.geo, ..st2 }, s, Node { at: a, ..n1 })
            } else {
                st2
            }
        },
    }
}

/// Collecting the sector `s`, if it is dirty: its live nodes move, and it is formatted.
/// `last` is the sector collected before; the result says which sector that is now,
/// and whether collecting may stop because that sector has room for `free` bytes.
#[verifier::opaque]
pub open spec fn collect_sector(
    st: KvState,
    s: SecInfo,
    free: int,
    last: int,
) -> (KvState, int, bool) {
    if !(s.check_ok && (s.dirty == SectorDirtyStatus::True || s.dirty == SectorDirtyStatus::Gc)) {
        (st, last, false)
    } else {
        let st1 = KvState { m: flash::put_status(st.m, s.at + 1, 3, true), ..st };
        let st2 = evacuate(st1, s, Node { at: s.at + 16, ..blank_node() });
        let m3 = format(st2.m, st.geo, s.at, SECTOR_NOT_COMBINED as int).0;
        let oldest = match next_sector(st.geo, s, 0) {
            Some(a) => a,
            None => FAILED_ADDR as int,
        };
        let (m4, info, r) = sector_full(m3, st.geo, last);
        (KvState { m: m4, oldest, ..st2 }, s.at, r is Ok && info.remain > free)
    }
}

/// Collecting the dirty sectors on a walk from `at` on that has come past `traversed` bytes.
pub open spec fn collect_from(
    st: KvState,
    free: int,
    last: int,
    at: int,
    traversed: int,
) -> KvState
    decreases st.geo.max - traversed,
{
    let s = sector_head(st.m, at);
    let (st1, last1, stop) = collect_sector(st, s, free, last);
    if stop {
        st1
    } else {
        match next_sector(st.geo, s, traversed + st.geo.sec) {
            None => st1,
            Some(a) => {
                if st.geo.sec <= 0 || traversed >= st.geo.max {
                    st1
                } else {
                    collect_from(
                        KvState { geo: st.geo, ..st1 },
                        free,
                        last1,
                        a,
                        traversed + st.geo.sec,
                    )
                }
            },
        }
    }
}

/// How many sectors are empty, and the last of them, on a walk from `at` on that has
/// come past `traversed` bytes with the count `n` and the empty sector `last`.
pub open spec fn empty_sectors(
    m: Medium,
    geo: Geo,
    at: int,
    traversed: int,
    n: int,
    last: int,
) -> (int, int)
    decreases geo.max - traversed,
{
    let s = sector_head(m, at);
    let (n1, last1) = if s.store == SectorStoreStatus::Empty && s.check_ok {
        (n + 1, s.at)
    } else {
        (n, last)
    };
    match next_sector(geo, s, traversed + geo.sec) {
        None => (n1, last1),
        Some(a) => {
            if geo.sec <= 0 || traversed >= geo.max {
                (n1, last1)
            } else {
                empty_sectors(m, geo, a, traversed + geo.sec, n1, last1)
            }
        },
    }
}

/// Garbage collection: where at most one sector is empty, dirty sectors are
/// collected, the oldest first, until one has room for `free` bytes.
#[verifier::opaque]
pub open spec fn gc(st: KvState, free: int) -> KvState {
    let (n, last) = empty_sectors(st.m, st.geo, st.oldest, 0, 0, 0);
    if n <= GC_EMPTY_SEC_THRESHOLD {
        KvState { gc_request: false, ..collect_from(st, free, last, st.oldest, 0) }
    } else {
        KvState { gc_request: false, ..st }
    }
}

// ------------------------------------------------------------------------- setting

/// Finding room for a node of `size` bytes, collecting garbage once if that is asked for.
#[verifier::opaque]
pub open spec fn new_room(st: KvState, size: int) -> (KvState, Option<SecInfo>) {
    let (st1, s1) = find_room(st, size);
    if s1 is Some || !st1.gc_request {
        (st1, s1)
    } else {
        let (st2, s2) = find_room(gc(st1, size), size);
        if s2 is Some {
            (st2, s2)
        } else {
            (KvState { gc_request: false, ..st2 }, None)
        }
    }
}

/// Writing a node with this name and value to the free place of the sector `s`.
#[verifier::opaque]
pub open spec fn create_in(
    st: KvState,
    s: SecInfo,
    name: Seq<u8>,
    value: Seq<u8>,
) -> (KvState, Result<()>) {
    let (m1, r1) = note_use(st.m, s, record_len(name, value));
    match r1 {
        Err(e) => (KvState { m: m1, ..st }, Err(e)),
        Ok(full) => {
            let (m2, r2) = write_record(m1, s.empty, name, value);
            (
                KvState { m: m2, gc_request: st.gc_request || (full && r2 is Ok), ..st },
                r2,
            )
        },
    }
}

/// Creating a node with this name and value: in the sector found for it before, or
/// in one found now.
pub open spec fn create(
    st: KvState,
    slot: Option<SecInfo>,
    name: Seq<u8>,
    value: Seq<u8>,
) -> (KvState, Result<()>) {
    let size = record_len(name, value);
    if name.len() > KV_NAME_MAX {
        (st, Err(FdbError::KvNameErr))
    } else if size > st.geo.sec - 16 {
        (st, Err(FdbError::SavedFull))
    } else {
        let (st1, s) = if slot is Some {
            (st, slot)
        } else {
            new_room(st, size)
        };
        match s {
            None => (st1, Err(FdbError::SavedFull)),
            Some(info) => create_in(st1, info, name, value),
        }
    }
}

/// Setting a name to a value in the sector `s` with room: the old node is marked, the
/// new one is written, the old one is deleted, and garbage is collected if that is
/// asked for.
pub open spec fn put_in(st: KvState, s: SecInfo, name: Seq<u8>, value: Seq<u8>) -> (
    KvState,
    Result<()>,
) {
    let (m2, old_node, found) = find(st, name);
    let (m3, r3) = if found {
        delete_at(m2, st.geo, old_node.at, false)
    } else {
        (m2, Ok(()))
    };
    let (st4, r4) = match r3 {
        Err(e) => (KvState { m: m3, ..st }, Err(e)),
        Ok(_) => create(KvState { m: m3, ..st }, Some(s), name, value),
    };
    let (m5, r5) = if found && r4 is Ok {
        delete_at(st4.m, st.geo, old_node.at, true)
    } else {
        (st4.m, r4)
    };
    let st5 = KvState { m: m5, ..st4 };
    (
        if st5.gc_request {
            gc(st5, record_len(name, value))
        } else {
            st5
        },
        r5,
    )
}

/// Setting a name to a value: room is found, and the value is put there.
pub open spec fn set_value(st: KvState, name: Seq<u8>, value: Seq<u8>) -> (KvState, Result<()>) {
    let (st1, slot) = new_room(st, record_len(name, value));
    match slot {
        None => (st1, Err(FdbError::SavedFull)),
        Some(s) => put_in(st1, s, name, value),
    }
}

/// Formatting every sector from `at` on.
pub open spec fn format_from(m: Medium, geo: Geo, at: int) -> (Medium, Result<()>)
    decreases geo.max + geo.sec - at,
{
    if at >= geo.max || geo.sec <= 0 {
        (m, Ok(()))
    } else {
        let (m1, r) = format(m, geo, at, SECTOR_NOT_COMBINED as int);
        match r {
            Err(e) => (m1, Err(e)),
            Ok(_) => format_from(m1, geo, at + geo.sec),
        }
    }
}

/// Creating the default nodes from the `i`th on.
pub open spec fn create_defaults(st: KvState, i: int) -> KvState
    decreases st.defaults.len() - i,
{
    if i >= st.defaults.len() {
        st
    } else {
        let st1 = create(st, None, st.defaults[i].0, st.defaults[i].1).0;
        create_defaults(KvState { defaults: st.defaults, ..st1 }, i + 1)
    }
}

/// Formatting the whole database and writing the default nodes.
pub open spec fn set_defaults(st: KvState) -> (KvState, Result<()>) {
    let (m1, r) = format_from(st.m, st.geo, 0);
    match r {
        Err(e) => (KvState { m: m1, ..st }, Err(e)),
        Ok(_) => (
            KvState { oldest: 0, ..create_defaults(KvState { m: m1, ..st }, 0) },
            Ok(()),
        ),
    }
}

// ------------------------------------------------------------------------- opening

/// The oldest sector: the last sector with data on a walk from `at` on that comes
/// right behind an empty one; `oldest` where none does.
pub open spec fn oldest_from(
    m: Medium,
    geo: Geo,
    at: int,
    traversed: int,
    before: SectorStoreStatus,
    oldest: int,
) -> int
    decreases geo.max - traversed,
{
    let s = sector_head(m, at);
    let oldest1 = if before == SectorStoreStatus::Empty && (s.store == SectorStoreStatus::Full
        || s.store == SectorStoreStatus::Using) {
        s.at
    } else {
        oldest
    };
    match next_sector(geo, s, traversed + geo.sec) {
        None => oldest1,
        Some(a) => {
            if geo.sec <= 0 || traversed >= geo.max {
                oldest1
            } else {
                oldest_from(m, geo, a, traversed + geo.sec, s.store, oldest1)
            }
        },
    }
}

/// Checking the sector headers on a walk from `at` on, formatting the bad ones unless
/// the database may not be formatted; with the number of bad ones.
pub open spec fn check_headers(
    m: Medium,
    geo: Geo,
    fixed: bool,
    at: int,
    traversed: int,
    bad: int,
) -> (Medium, int)
    decreases geo.max - traversed,
{
    let s = sector_head(m, at);
    if !s.check_ok && fixed {
        (m, bad + 1)
    } else {
        let (m1, bad1) = if s.check_ok {
            (m, bad)
        } else {
            (format(m, geo, at, SECTOR_NOT_COMBINED as int).0, bad + 1)
        };
        match next_sector(geo, s, traversed + geo.sec) {
            None => (m1, bad1),
            Some(a) => {
                if geo.sec <= 0 || traversed >= geo.max {
                    (m1, bad1)
                } else {
                    check_headers(m1, geo, fixed, a, traversed + geo.sec, bad1)
                }
            },
        }
    }
}

/// Resuming garbage collection for every sector that was being collected, on a walk
/// from `at` on.
pub open spec fn resume_gc(st: KvState, at: int, traversed: int) -> KvState
    decreases st.geo.max - traversed,
{
    let s = sector_head(st.m, at);
    let st1 = if s.check_ok && s.dirty == SectorDirtyStatus::Gc {
        gc(KvState { gc_request: true, ..st }, st.geo.max)
    } else {
        st
    };
    match next_sector(st.geo, s, traversed + st.geo.sec) {
        None => st1,
        Some(a) => {
            if st.geo.sec <= 0 || traversed >= st.geo.max {
                st1
            } else {
                resume_gc(KvState { geo: st.geo, ..st1 }, a, traversed + st.geo.sec)
            }
        },
    }
}

/// Recovering one node: one that was about to be deleted is moved, one that was being
/// written is marked as bad. The result says whether the pass stops here: it does where a
/// node cannot be moved.
pub open spec fn recover_node(st: KvState, n: Node) -> (KvState, bool) {
    if n.crc_ok && n.status == KvStatus::PreDelete {
        let (st1, r) = move_node(st, n);
        (st1, r is Err)
    } else if n.status == KvStatus::PreWrite {
        (
            KvState {
                m: flash::put_status(st.m, n.at, def::kv_index_of(KvStatus::ErrHdr), true),
                ..st
            },
            false,
        )
    } else {
        (st, false)
    }
}

/// Recovering the nodes of the sector `s` from the node object `n` on.
pub open spec fn recover_in_sector(st: KvState, s: SecInfo, n: Node) -> (KvState, bool)
    decreases s.at + st.geo.sec - n.at,
{
    let m1 = after_read(st.m, st.geo, n.at);
    let n1 = read_node(st.m, st.geo, n);
    let (st1, stop) = recover_node(KvState { m: m1, ..st }, n1);
    if stop {
        (st1, true)
    } else {
        match next_node(st1.m.bytes, st.geo, s, n1) {
            None => (st1, false),
            Some(a) => {
                if n.at < a <= s.at + st.geo.sec {
                    recover_in_sector(KvState { geo: st.geo, ..st1 }, s, Node { at: a, ..n1 })
                } else {
                    (st1, false)
                }
            },
        }
    }
}

/// One recovery pass, on a walk from `at` on.
pub open spec fn recover_from(st: KvState, at: int, traversed: int) -> KvState
    decreases st.geo.max - traversed,
{
    let s = sector_head(st.m, at);
    let (st1, stop) = if has_nodes(s) {
        recover_in_sector(st, s, Node { at: at + 16, ..blank_node() })
    } else {
        (st, false)
    };
    if stop {
        st1
    } else {
        match next_sector(st.geo, s, traversed + st.geo.sec) {
            None => st1,
            Some(a) => {
                if st.geo.sec <= 0 || traversed >= st.geo.max {
                    st1
                } else {
                    recover_from(KvState { geo: st.geo, ..st1 }, a, traversed + st.geo.sec)
                }
            },
        }
    }
}

/// Recovery passes, each followed by garbage collection as long as that is asked for,
/// at most `rounds` times.
pub open spec fn recover_rounds(st: KvState, rounds: int) -> KvState
    decreases rounds,
{
    let st1 = recover_from(st, st.oldest, 0);
    if st1.gc_request && rounds > 0 {
        recover_rounds(gc(st1, st.geo.max), rounds - 1)
    } else {
        st1
    }
}

/// Loading the database from its medium.
#[verifier::opaque]
pub open spec fn load(st: KvState) -> (KvState, Result<()>) {
    let st0 = KvState { recovering: true, ..st };
    let (m1, bad) = check_headers(st0.m, st.geo, st.fixed, st.oldest, 0, 0);
    let st1 = KvState { m: m1, ..st0 };
    if st.fixed && bad > 0 {
        (st1, Err(FdbError::ReadErr))
    } else {
        let st2 = if bad == st.geo.max / st.geo.sec {
            set_defaults(st1).0
        } else {
            st1
        };
        let st3 = resume_gc(st2, st2.oldest, 0);
        let st4 = recover_rounds(st3, st.geo.max);
        (KvState { recovering: false, ..st4 }, Ok(()))
    }
}

/// Opening a database on the medium `m`: the database, or the error that opening reports.
pub open spec fn open_db(
    m: Medium,
    geo: Geo,
    defaults: Seq<(Seq<u8>, Seq<u8>)>,
    fixed: bool,
) -> (KvState, Result<()>) {
    let st0 = KvState {
        m,
        geo,
        oldest: oldest_from(m, geo, 0, 0, SectorStoreStatus::Unused, 0),
        ready: false,
        fixed,
        gc_request: false,
        recovering: false,
        defaults,
    };
    let (st1, r) = load(st0);
    (KvState { ready: r is Ok, ..st1 }, r)
}

// ------------------------------------------------------------ checking and iterating

/// Checking the nodes of the sector `s` from the node object `n` on.
pub open spec fn check_in_sector(m: Medium, geo: Geo, s: SecInfo, n: Node) -> (
    Medium,
    Result<()>,
)
    decreases s.at + geo.sec - n.at,
{
    let m1 = after_read(m, geo, n.at);
    let n1 = read_node(m, geo, n);
    if !n1.crc_ok {
        (m1, Err(FdbError::ReadErr))
    } else {
        match next_node(m1.bytes, geo, s, n1) {
            None => (m1, Ok(())),
            Some(a) => {
                if n.at < a <= s.at + geo.sec {
                    check_in_sector(m1, geo, s, Node { at: a, ..n1 })
                } else {
                    (m1, Ok(()))
                }
            },
        }
    }
}

/// Checking every sector and node, on a walk from `at` on.
pub open spec fn check_from(m: Medium, geo: Geo, at: int, traversed: int) -> (Medium, Result<()>)
    decreases geo.max - traversed,
{
    let s = sector_head(m, at);
    if !s.check_ok {
        (m, Err(FdbError::InitFailed))
    } else {
        let (m1, r) = if has_nodes(s) {
            check_in_sector(m, geo, s, Node { at: at + 16, ..blank_node() })
        } else {
            (m, Ok(()))
        };
        match r {
            Err(e) => (m1, Err(e)),
            Ok(_) => match next_sector(geo, s, traversed + geo.sec) {
                None => (m1, Ok(())),
                Some(a) => {
                    if geo.sec <= 0 || traversed >= geo.max {
                        (m1, Ok(()))
                    } else {
                        check_from(m1, geo, a, traversed + geo.sec)
                    }
                },
            },
        }
    }
}

// ------------------------------------------------------------------------- iterating

/// Where an iteration stands: the node object it came to, the sector that the node
/// lies in, and how many bytes of sectors it has come past. A node at address 0 is
/// none: the iteration stands before the first node of the sector.
pub struct Cursor {
    pub node: Node,
    pub sec: int,
    pub traversed: int,
}

/// The cursor that an iteration of the database starts with.
pub open spec fn first_cursor(oldest: int) -> Cursor {
    Cursor { node: Node { at: 0, ..blank_node() }, sec: oldest, traversed: 0 }
}

/// Looking for any live node in the sector `s` from the node object `n` on.
pub open spec fn live_in_sector(m: Medium, geo: Geo, s: SecInfo, n: Node) -> (Medium, Node, bool)
    decreases s.at + geo.sec - n.at,
{
    let m1 = after_read(m, geo, n.at);
    let n1 = read_node(m, geo, n);
    if n1.status == KvStatus::Write && n1.crc_ok {
        (m1, n1, true)
    } else {
        match next_node(m1.bytes, geo, s, n1) {
            None => (m1, n1, false),
            Some(a) => {
                if n.at < a <= s.at + geo.sec {
                    live_in_sector(m1, geo, s, Node { at: a, ..n1 })
                } else {
                    (m1, n1, false)
                }
            },
        }
    }
}

/// Looking for a live node in the sector that the cursor stands in, behind its node.
pub open spec fn seek_here(m: Medium, geo: Geo, c: Cursor) -> (Medium, Node, bool) {
    let s = sector_head(m, c.sec);
    let start = if !has_nodes(s) {
        None
    } else if c.node.at == 0 {
        Some(s.at + 16)
    } else {
        next_node(m.bytes, geo, s, c.node)
    };
    match start {
        Some(a) => live_in_sector(m, geo, s, Node { at: a, ..c.node }),
        None => (m, c.node, false),
    }
}

/// The next live node behind the cursor.
pub open spec fn seek(m: Medium, geo: Geo, c: Cursor) -> (Medium, Cursor, bool)
    decreases geo.max - c.traversed,
{
    let s = sector_head(m, c.sec);
    let (m1, n1, found) = seek_here(m, geo, c);
    if found {
        (m1, Cursor { node: n1, ..c }, true)
    } else {
        let c1 = Cursor {
            node: Node { at: 0, ..n1 },
            traversed: c.traversed + geo.sec,
            ..c
        };
        match next_sector(geo, s, c1.traversed) {
            None => (m1, c1, false),
            Some(a) => {
                if geo.sec <= 0 || c.traversed >= geo.max {
                    (m1, c1, false)
                } else {
                    seek(m1, geo, Cursor { sec: a, ..c1 })
                }
            },
        }
    }
}

/// The counters of an iterator after one more node: how many nodes, their bytes and the bytes
/// of their values. A counter that would grow too large stays at its maximum.
pub open spec fn counted(n: (int, int, int), node: Node) -> (int, int, int) {
    (
        least(n.0 + 1, u32::MAX as int),
        least(n.1 + node.len, usize::MAX as int),
        least(n.2 + node.value_len, usize::MAX as int),
    )
}

/// What `k` steps of an iterator come to from the cursor `c` and the counters `n` on.
pub open spec fn steps(m: Medium, geo: Geo, c: Cursor, n: (int, int, int), k: nat) -> (
    Medium,
    Cursor,
    (int, int, int),
)
    decreases k,
{
    if k == 0 {
        (m, c, n)
    } else {
        let (m1, c1, found) = seek(m, geo, c);
        steps(m1, geo, c1, counted(n, c1.node), (k - 1) as nat)
    }
}

/// Whether `c1` stands behind `c`.
pub open spec fn advanced(geo: Geo, c: Cursor, c1: Cursor) -> bool {
    ||| c.traversed < c1.traversed <= geo.max
    ||| {
        &&& c.traversed == c1.traversed
        &&& c.sec == c1.sec
        &&& c.node.at < c1.node.at <= c.sec + geo.sec
    }
}

/// All live nodes behind the cursor.
pub open spec fn gather(m: Medium, geo: Geo, c: Cursor) -> (Medium, Seq<Node>)
    decreases geo.max - c.traversed, c.sec + geo.sec - c.node.at,
{
    let (m1, c1, found) = seek(m, geo, c);
    if found && advanced(geo, c, c1) {
        let (m2, rest) = gather(m1, geo, c1);
        (m2, seq![c1.node] + rest)
    } else {
        (m1, Seq::empty())
    }
}

/// All live nodes of the database.
pub open spec fn live_nodes(st: KvState) -> (Medium, Seq<Node>) {
    gather(st.m, st.geo, first_cursor(st.oldest))
}

/// The value of the node `n`.
pub open spec fn value_of(m: Medium, n: Node) -> Seq<u8> {
    m.fetch(n.value_at, flash::zeros(n.value_len))
}

/// The value of a name, as far as there is one.
pub open spec fn lookup(st: KvState, key: Seq<u8>) -> Option<Seq<u8>> {
    let (m1, n, found) = find(st, key);
    if found {
        Some(value_of(m1, n))
    } else {
        None
    }
}

} // verus!
