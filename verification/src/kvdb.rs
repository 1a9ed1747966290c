//! Key-value database.
//!
//! A log-structured store: every update writes a new node and then deletes the old
//! one, sectors that hold deleted nodes are collected when room runs short.
use vstd::prelude::*;
use vstd::utf8;

use crate::codec;
use crate::codec::{put_u32, rd_u32};
use crate::crc32::calc_crc32;
use crate::db;
use crate::db::{validate_geometry, DefaultKv, Geo};
use crate::def::{
    align_down, wg_align, KvStatus, SectorDirtyStatus, SectorStoreStatus, DATA_UNUSED, FAILED_ADDR,
    KV_NAME_MAX, KV_STATUS_NUM, SECTOR_DIRTY_STATUS_NUM, SECTOR_STORE_STATUS_NUM,
    STR_KV_VALUE_MAX_SIZE,
};
use crate::error::{FdbError, Result};
use crate::flash;
use crate::flash::{continue_ff_addr, read_status, write_align, write_status};
use crate::kv_gc as gc;
use crate::kv_image as image;
use crate::kv_image::Sect;
use crate::kv_laws as laws;
use crate::kv_model as model;
use crate::kv_model::{
    Cursor, KvState, Node, SecInfo, GC_EMPTY_SEC_THRESHOLD, KV_HDR_DATA_SIZE, KV_MAGIC_OFFSET,
    KV_MAGIC_WORD, SECTOR_COMBINED, SECTOR_DIRTY_OFFSET, SECTOR_HDR_DATA_SIZE, SECTOR_MAGIC_WORD,
    SECTOR_NOT_COMBINED, SEC_REMAIN_THRESHOLD,
};
use crate::kv_read as read;
use crate::status;
use crate::status::{get_status, set_status};
use crate::storage;
use crate::storage::{Medium, Storage};
use crate::text;
use crate::text::{is_str, push_line, text_of};

verus! {

/// A key-value node read from storage.
#[derive(Clone, Copy)]
pub struct Kv {
    status: KvStatus,
    crc_is_ok: bool,
    name_len: u8,
    len: u32,
    value_len: u32,
    name: [u8; KV_NAME_MAX],
    addr_start: u32,
    addr_value: u32,
}

impl Kv {
    /// What this object holds.
    pub closed spec fn node(&self) -> Node {
        Node {
            status: self.status,
            crc_ok: self.crc_is_ok,
            name_len: self.name_len as int,
            len: self.len as int,
            value_len: self.value_len as int,
            name: self.name@,
            at: self.addr_start as int,
            value_at: self.addr_value as int,
        }
    }

    /// Whether the power went away while the data of this node was written.
    fn half_written(&self) -> (r: bool)
        ensures
            r == model::half_written(self.node()),
    {
        !self.crc_is_ok && self.len > KV_HDR_DATA_SIZE && (self.status == KvStatus::PreWrite
            || self.status == KvStatus::ErrHdr)
    }

    fn blank() -> (r: Self)
        ensures
            r.node() == model::blank_node(),
    {
        let r = Kv {
            status: KvStatus::Unused,
            crc_is_ok: false,
            name_len: 0,
            len: 0,
            value_len: 0,
            name: [0u8; KV_NAME_MAX],
            addr_start: FAILED_ADDR,
            addr_value: FAILED_ADDR,
        };
        assert(r.name@ =~= flash::zeros(KV_NAME_MAX as int));
        r
    }

    /// The KV name as bytes.
    pub fn name(&self) -> (r: &[u8])
        requires
            self.node().name_len <= KV_NAME_MAX,
        ensures
            r@ == self.node().name.subrange(0, self.node().name_len),
    {
        vstd::slice::slice_subrange(self.name.as_slice(), 0, self.name_len as usize)
    }

    /// The stored value length in bytes.
    pub fn value_len(&self) -> (r: usize)
        ensures
            r == self.node().value_len,
    {
        self.value_len as usize
    }

    /// The start address of the KV node within the database.
    pub fn addr(&self) -> (r: u32)
        ensures
            r == self.node().at,
    {
        self.addr_start
    }
}

/// Sector descriptor.
#[derive(Clone, Copy)]
pub struct KvSecInfo {
    check_ok: bool,
    store: SectorStoreStatus,
    dirty: SectorDirtyStatus,
    addr: u32,
    combined: u32,
    remain: i64,
    empty_kv: u32,
}

impl KvSecInfo {
    /// What this descriptor holds.
    pub closed spec fn info(&self) -> SecInfo {
        SecInfo {
            check_ok: self.check_ok,
            store: self.store,
            dirty: self.dirty,
            at: self.addr as int,
            combined: self.combined as int,
            remain: self.remain as int,
            empty: self.empty_kv as int,
        }
    }

    /// Whether this descriptor is of a sector of a database with geometry `geo`.
    pub closed spec fn fits(&self, geo: Geo) -> bool {
        &&& self.addr as int % geo.sec == 0
        &&& self.addr + geo.sec <= geo.max
        &&& self.combined == SECTOR_NOT_COMBINED || self.combined == SECTOR_COMBINED
        &&& -0x1_FFFF_FFFE <= self.remain <= 0xFFFF_FFFF
    }

    /// Whether the room of this sector, if it has any, lies at its end.
    pub closed spec fn placed(&self, geo: Geo) -> bool {
        self.remain > 0 ==> {
            &&& self.addr + 16 <= self.empty_kv
            &&& self.empty_kv + self.remain <= self.addr + geo.sec
        }
    }

    fn blank() -> (r: Self)
        ensures
            r.info() == model::blank_sector(),
    {
        KvSecInfo {
            check_ok: false,
            store: SectorStoreStatus::Unused,
            dirty: SectorDirtyStatus::Unused,
            addr: 0,
            combined: SECTOR_NOT_COMBINED,
            remain: 0,
            empty_kv: FAILED_ADDR,
        }
    }
}

/// A key-value database backed by a [`Storage`].
pub struct Kvdb<S: Storage> {
    storage: S,
    sec_size: u32,
    max_size: u32,
    oldest_addr: u32,
    init_ok: bool,
    not_formatable: bool,
    gc_request: bool,
    in_recovery_check: bool,
    default_kvs: Vec<(Vec<u8>, Vec<u8>)>,
}

/// The names and values of a list of default KVs.
pub open spec fn default_pairs(v: Seq<(Vec<u8>, Vec<u8>)>) -> Seq<(Seq<u8>, Seq<u8>)> {
    v.map_values(|p: (Vec<u8>, Vec<u8>)| (p.0@, p.1@))
}

/// A medium that stands for none.
pub open spec fn no_medium() -> Medium {
    storage::medium_of(Seq::empty())
}

/// The address that `r` stands for, if any.
pub open spec fn addr_opt(r: u32) -> Option<int> {
    if r == FAILED_ADDR {
        None
    } else {
        Some(r as int)
    }
}

/// The sector that `r` stands for, if any.
pub open spec fn sec_opt(r: Option<KvSecInfo>) -> Option<SecInfo> {
    match r {
        Some(s) => Some(s.info()),
        None => None,
    }
}

/// The sector with room that an allocation gave, if it gave one.
pub open spec fn slot_opt(s: KvSecInfo, r: u32) -> Option<SecInfo> {
    if r == FAILED_ADDR {
        None
    } else {
        Some(s.info())
    }
}

/// Whether `s` is a sector with room at `r` for a node of `size` bytes.
pub open spec fn slot_ok(s: KvSecInfo, geo: Geo, r: u32, size: u32) -> bool {
    &&& s.fits(geo)
    &&& s.placed(geo)
    &&& s.info().empty == r
    &&& s.info().remain > size + SEC_REMAIN_THRESHOLD
}

/// The value that `r` stands for, if any.
pub open spec fn value_opt(r: Option<Vec<u8>>) -> Option<Seq<u8>> {
    match r {
        Some(v) => Some(v@),
        None => None,
    }
}

/// What the node objects in a list hold.
pub open spec fn nodes_of(kvs: Seq<Kv>) -> Seq<Node> {
    kvs.map_values(|kv: Kv| kv.node())
}

/// The lines that nodes are rendered as.
pub open spec fn rendered_nodes(m: Medium, nodes: Seq<Node>) -> Seq<char>
    decreases nodes.len(),
{
    if nodes.len() == 0 {
        Seq::empty()
    } else {
        let n = nodes.last();
        rendered_nodes(m, nodes.drop_last()) + text::rendered(
            n.name.subrange(0, model::least(n.name_len, KV_NAME_MAX as int)),
            model::value_of(m, n),
            n.value_at,
        )
    }
}

/// What opening a database on `storage` gives: an error where the geometry cannot be,
/// else what opening it on the storage's medium gives.
pub open spec fn opened<S: Storage>(
    r: Result<Kvdb<S>>,
    storage: S,
    sec_size: u32,
    max_size: u32,
    defaults: Seq<(Seq<u8>, Seq<u8>)>,
    fixed: bool,
) -> bool {
    let geo = db::geo_of(sec_size, max_size);
    let (st, res) = model::open_db(storage.medium(), geo, defaults, fixed);
    if !db::geometry_ok(geo.sec, geo.max) {
        r is Err && r->Err_0 == FdbError::InitFailed
    } else {
        &&& flash::backs(&storage) ==> {
            &&& r is Ok <==> res is Ok
            &&& r is Err ==> r->Err_0 == res->Err_0
            &&& r is Ok ==> r->Ok_0.backed() && r->Ok_0.state() == st
        }
        &&& r matches Ok(db) ==> {
            &&& db.inv()
            &&& db.geo() == geo
            &&& db.rest().ready
            &&& db.rest().fixed == fixed
            &&& !db.rest().recovering
            &&& db.rest().defaults == defaults
        }
    }
}

impl<S: Storage> Kvdb<S> {
    /// The storage of this database.
    pub closed spec fn held_storage(&self) -> S {
        self.storage
    }

    /// The medium of this database.
    pub open spec fn medium(&self) -> Medium {
        self.held_storage().medium()
    }

    /// Sector and database size.
    pub open spec fn geo(&self) -> Geo {
        self.rest().geo
    }

    /// The state of this database without its medium.
    pub closed spec fn rest(&self) -> KvState {
        KvState {
            m: no_medium(),
            geo: Geo { sec: self.sec_size as int, max: self.max_size as int },
            oldest: self.oldest_addr as int,
            ready: self.init_ok,
            fixed: self.not_formatable,
            gc_request: self.gc_request,
            recovering: self.in_recovery_check,
            defaults: default_pairs(self.default_kvs@),
        }
    }

    /// What no operation on an open database changes.
    pub open spec fn fixed_part(&self) -> KvState {
        KvState { oldest: 0, gc_request: false, ..self.rest() }
    }

    /// What opening a database does not change.
    pub open spec fn settings(&self) -> KvState {
        KvState { recovering: false, ..self.fixed_part() }
    }

    /// The state of this database.
    pub open spec fn state(&self) -> KvState {
        KvState { m: self.medium(), ..self.rest() }
    }

    /// Whether the storage is regular and lies within the 32-bit address space.
    pub open spec fn backed(&self) -> bool {
        flash::backs(&self.held_storage())
    }

    /// What holds of every database: its geometry, that the oldest sector is one, and
    /// that the default nodes can be.
    pub open spec fn inv(&self) -> bool {
        model::state_ok(self.rest())
    }

    /// Read at an address that may lie beyond the 32-bit address space, where nothing
    /// is. A failed read is ignored: the buffer stays as it is.
    fn fetch_at(&mut self, addr: u64, buf: &mut [u8])
        ensures
            final(buf)@.len() == old(buf)@.len(),
            final(self).rest() == old(self).rest(),
            old(self).backed() ==> {
                &&& final(self).backed()
                &&& final(self).medium() == old(self).medium()
                &&& final(buf)@ == old(self).medium().fetch(addr as int, old(buf)@)
            },
    {
        if addr <= 0xFFFF_FFFF {
            let _ = self.storage.read(addr as u32, buf);
        } else {
            assert(old(self).backed() ==> !old(self).medium().holds(
                addr as int,
                old(buf)@.len() as int,
            ));
        }
    }

    /// Read and validate the KV node at `kv.addr_start`.
    fn read_kv(&mut self, kv: &mut Kv) -> (r: Result<()>)
        requires
            old(self).inv(),
        ensures
            final(self).rest() == old(self).rest(),
            final(kv).node().at == old(kv).node().at,
            final(kv).node().len >= 24,
            final(kv).node().len <= 24 || final(kv).node().len <= old(self).geo().max,
            r == (if final(kv).node().crc_ok {
                Ok(())
            } else {
                Err(FdbError::ReadErr)
            }),
            old(self).backed() ==> {
                &&& final(self).backed()
                &&& final(self).medium() == model::after_read(
                    old(self).medium(),
                    old(self).geo(),
                    old(kv).node().at,
                )
                &&& final(kv).node() == model::read_node(
                    old(self).medium(),
                    old(self).geo(),
                    old(kv).node(),
                )
            },
    {
        proof {
            reveal(model::read_node);
            reveal(model::after_read);
        }
        let ghost m0 = self.medium();
        let ghost geo = self.geo();
        let ghost n0 = kv.node();
        let ghost b = self.backed();
        let mut hdr: [u8; 24] = [0u8; 24];
        assert(hdr@ =~= flash::zeros(24));
        let _ = self.storage.read(kv.addr_start, &mut hdr);
        assert(b ==> hdr@ == model::node_header(m0, n0.at));
        kv.status = KvStatus::from_index(
            get_status(vstd::slice::slice_subrange(hdr.as_slice(), 0, 1), KV_STATUS_NUM),
        );
        let hdr_len: u32 = rd_u32(hdr.as_slice(), 8);
        kv.len = hdr_len;
        let hdr_crc32: u32 = rd_u32(hdr.as_slice(), 12);
        let hdr_name_len: u8 = hdr[16];
        let hdr_value_len: u32 = rd_u32(hdr.as_slice(), 20);

        if kv.len > self.max_size || kv.len < KV_HDR_DATA_SIZE {
            kv.len = KV_HDR_DATA_SIZE;
            if kv.status != KvStatus::ErrHdr {
                kv.status = KvStatus::ErrHdr;
                let _ = write_status(
                    &mut self.storage,
                    kv.addr_start,
                    KV_STATUS_NUM,
                    KvStatus::ErrHdr.index(),
                    true,
                );
            }
            kv.crc_is_ok = false;
            return Err(FdbError::ReadErr);
        }
        // The CRC covers the two lengths (with their erased padding) and the data.
        let mut calc: u32 = calc_crc32(0, vstd::slice::slice_subrange(hdr.as_slice(), 16, 20));
        calc = calc_crc32(calc, vstd::slice::slice_subrange(hdr.as_slice(), 20, 24));
        let crc_data_len: u32 = kv.len - KV_HDR_DATA_SIZE;
        let mut buf: Vec<u8> = vec![0u8; 32];
        assert(buf@ =~= flash::zeros(32));
        let mut len: u32 = 0;
        while len < crc_data_len
            invariant
                len <= crc_data_len,
                buf@.len() == 32,
                self.rest() == old(self).rest(),
                b == old(self).backed(),
                b ==> self.backed() && self.medium() == m0,
                kv.node().at == n0.at,
                b ==> model::node_crc(m0, n0.at, hdr@) == model::crc_stream(
                    m0,
                    n0.at + 24,
                    crc_data_len as int,
                    len as int,
                    buf@,
                    calc,
                ),
            decreases crc_data_len - len,
        {
            let size: usize = if crc_data_len - len >= 32 {
                32
            } else {
                (crc_data_len - len) as usize
            };
            {
                let (head, _tail) = buf.as_mut_slice().split_at_mut(size);
                self.fetch_at(kv.addr_start as u64 + 24 + len as u64, head);
            }
            calc = calc_crc32(calc, vstd::slice::slice_subrange(buf.as_slice(), 0, size));
            len = len + size as u32;
        }
        let kv_name_addr: u64 = kv.addr_start as u64 + 24;
        let read_n: usize = if hdr_name_len as usize <= KV_NAME_MAX {
            hdr_name_len as usize
        } else {
            KV_NAME_MAX
        };
        {
            let name: &mut [u8] = &mut kv.name;
            let (head, _tail) = name.split_at_mut(read_n);
            self.fetch_at(kv_name_addr, head);
        }
        kv.name_len = hdr_name_len;
        if calc != hdr_crc32 {
            kv.crc_is_ok = false;
            return Err(FdbError::ReadErr);
        }
        kv.crc_is_ok = true;
        let value_addr: u64 = kv_name_addr + hdr_name_len as u64;
        kv.addr_value = if value_addr <= 0xFFFF_FFFF {
            value_addr as u32
        } else {
            0xFFFF_FFFF
        };
        kv.value_len = hdr_value_len;
        if (hdr_name_len as usize) < KV_NAME_MAX {
            kv.name[hdr_name_len as usize] = 0;
        }
        Ok(())
    }

    /// Scan for the KV magic word of a node that starts at `start` or behind.
    fn find_next_kv_addr(&mut self, start: u32, end: u32) -> (r: u32)
        requires
            end <= old(self).geo().max,
        ensures
            final(self).rest() == old(self).rest(),
            r != FAILED_ADDR ==> start <= r && r + 8 < end,
            old(self).backed() ==> {
                &&& final(self).backed()
                &&& final(self).medium() == old(self).medium()
                &&& addr_opt(r) == model::next_mark(
                    old(self).medium().bytes,
                    start as int,
                    end as int,
                    start as int,
                )
            },
    {
        let mut buf: [u8; 32] = [0u8; 32];
        let mut at: u32 = start;
        let ghost b = self.backed();
        let ghost bytes = self.medium().bytes;
        let ghost goal = model::next_mark(bytes, start as int, end as int, start as int);
        while at < end && end - at > 32
            invariant
                start <= at,
                end <= self.geo().max,
                self.rest() == old(self).rest(),
                b == old(self).backed(),
                bytes == old(self).medium().bytes,
                b ==> self.backed() && self.medium() == old(self).medium(),
                goal == model::next_mark(bytes, start as int, end as int, start as int),
                b ==> goal == model::next_mark(bytes, at as int, end as int, start as int),
            decreases end - at,
        {
            if self.storage.read(at, &mut buf).is_err() {
                return FAILED_ADDR;
            }
            assert(b ==> forall|j: int| 0 <= j < 32 ==> buf@[j] == bytes[at + j]);
            let mut i: usize = 0;
            while i < 28
                invariant
                    i <= 28,
                    start <= at,
                    at + 32 < end,
                    b ==> at + 32 <= bytes.len(),
                    b ==> forall|j: int| 0 <= j < 32 ==> buf@[j] == bytes[at + j],
                    b ==> model::mark_in_window(bytes, at as int, 0, start as int)
                        == model::mark_in_window(bytes, at as int, i as int, start as int),
                    self.rest() == old(self).rest(),
                    b == old(self).backed(),
                    b ==> self.backed() && self.medium() == old(self).medium(),
                    goal == model::next_mark(bytes, start as int, end as int, start as int),
                    b ==> goal == model::next_mark(bytes, at as int, end as int, start as int),
                    bytes == old(self).medium().bytes,
                decreases 28 - i,
            {
                let magic: u32 = rd_u32(buf.as_slice(), i);
                if magic == KV_MAGIC_WORD && at - start + i as u32 >= KV_MAGIC_OFFSET {
                    return at + i as u32 - KV_MAGIC_OFFSET;
                }
                i = i + 1;
            }
            at = at + 28;
        }
        FAILED_ADDR
    }

    /// The address of the node behind `pre_kv` in `sector`, or `FAILED_ADDR`.
    fn get_next_kv_addr(&mut self, sector: &KvSecInfo, pre_kv: &Kv) -> (r: u32)
        requires
            old(self).inv(),
            sector.fits(old(self).geo()),
        ensures
            final(self).rest() == old(self).rest(),
            r != FAILED_ADDR && pre_kv.node().at != FAILED_ADDR && pre_kv.node().len > 0
                ==> pre_kv.node().at < r && r + 24 < sector.info().at + old(self).geo().sec,
            r != FAILED_ADDR ==> r <= sector.info().at + old(self).geo().sec,
            old(self).backed() ==> {
                &&& final(self).backed()
                &&& final(self).medium() == old(self).medium()
                &&& addr_opt(r) == model::next_node(
                    old(self).medium().bytes,
                    old(self).geo(),
                    sector.info(),
                    pre_kv.node(),
                )
            },
    {
        proof {
            reveal(model::next_node);
        }
        if sector.store == SectorStoreStatus::Empty {
            return FAILED_ADDR;
        }
        if pre_kv.addr_start == FAILED_ADDR {
            return sector.addr + SECTOR_HDR_DATA_SIZE;
        }
        if pre_kv.addr_start <= sector.addr + self.sec_size && pre_kv.len != 0 {
            let from: u32 = if pre_kv.crc_is_ok || pre_kv.half_written() {
                pre_kv.addr_start.saturating_add(pre_kv.len)
            } else {
                pre_kv.addr_start + wg_align(1)
            };
            let end: u32 = sector.addr + self.sec_size - SECTOR_HDR_DATA_SIZE;
            self.find_next_kv_addr(from, end)
        } else {
            FAILED_ADDR
        }
    }

    /// Read the sector header at `addr`, and with `traversal` the sector's nodes for
    /// the room that is left.
    fn read_sector_info(&mut self, addr: u32, sector: &mut KvSecInfo, traversal: bool) -> (r:
        Result<()>)
        requires
            old(self).inv(),
            db::is_sector(old(self).geo(), addr as int),
        ensures
            final(self).rest() == old(self).rest(),
            final(sector).fits(old(self).geo()),
            final(sector).info().at == addr,
            traversal ==> final(sector).placed(old(self).geo()),
            !traversal ==> r == model::head_result(final(sector).info()),
            r is Ok ==> final(sector).info().check_ok,
            old(self).backed() ==> {
                let (m1, info, res) = model::sector_full(
                    old(self).medium(),
                    old(self).geo(),
                    addr as int,
                );
                &&& final(self).backed()
                &&& traversal ==> final(self).medium() == m1 && final(sector).info() == info && r
                    == res
                &&& !traversal ==> final(self).medium() == old(self).medium()
                    && final(sector).info() == model::sector_head(old(self).medium(), addr as int)
            },
    {
        let ghost m0 = self.medium();
        let ghost geo = self.geo();
        let ghost b = self.backed();
        match read_head(&mut self.storage, addr, sector) {
            Err(e) => {
                return Err(e);
            },
            Ok(_) => {},
        }
        if !traversal {
            return Ok(());
        }
        let mut result: Result<()> = Ok(());
        sector.empty_kv = sector.addr + SECTOR_HDR_DATA_SIZE;
        if sector.store == SectorStoreStatus::Empty {
            sector.remain = (self.sec_size - SECTOR_HDR_DATA_SIZE) as i64;
        } else if sector.store == SectorStoreStatus::Using {
            sector.remain = (self.sec_size - SECTOR_HDR_DATA_SIZE) as i64;
            let mut kv_obj: Kv = Kv::blank();
            kv_obj.addr_start = sector.addr + SECTOR_HDR_DATA_SIZE;
            let ghost goal = model::tally(m0, geo, sector.info(), kv_obj.node());
            proof {
                db::lemma_geo(geo);
            }
            assert(b ==> {
                let (m1, info, res) = model::sector_full(m0, geo, addr as int);
                let ff = flash::seen_tail(goal.0, goal.1.empty, addr + geo.sec);
                &&& m1 == goal.0
                &&& res == goal.2
                &&& info == (if goal.1.empty != ff {
                    SecInfo { empty: ff, remain: geo.sec - (ff - addr), ..goal.1 }
                } else {
                    goal.1
                })
            });
            loop
                invariant_except_break
                    self.inv(),
                    self.rest() == old(self).rest(),
                    geo == self.geo(),
                    geo.sec < 0x8000_0000,
                    b == old(self).backed(),
                    b ==> self.backed(),
                    db::is_sector(geo, addr as int),
                    sector.addr == addr,
                    sector.store == SectorStoreStatus::Using,
                    sector.check_ok,
                    sector.combined == SECTOR_NOT_COMBINED || sector.combined == SECTOR_COMBINED,
                    addr + 16 <= kv_obj.addr_start,
                    kv_obj.addr_start <= addr + geo.sec,
                    kv_obj.addr_start == addr + 16 || kv_obj.addr_start + 24 < addr + geo.sec,
                    result == Ok::<(), FdbError>(()),
                    addr + 16 <= sector.empty_kv,
                    -0x1_FFFF_FFFE <= sector.remain <= 0xFFFF_FFFF,
                    sector.remain > 0 ==> sector.empty_kv + sector.remain == addr + geo.sec,
                    b ==> goal == model::tally(
                        self.medium(),
                        geo,
                        sector.info(),
                        kv_obj.node(),
                    ),
                ensures
                    self.inv(),
                    self.rest() == old(self).rest(),
                    sector.addr == addr,
                    sector.store == SectorStoreStatus::Using,
                    sector.check_ok,
                    sector.combined == SECTOR_NOT_COMBINED || sector.combined == SECTOR_COMBINED,
                    addr + 16 <= sector.empty_kv,
                    -0x1_FFFF_FFFE <= sector.remain <= 0xFFFF_FFFF,
                    sector.remain > 0 ==> sector.empty_kv + sector.remain == addr + geo.sec,
                    b ==> self.backed() && goal == (self.medium(), sector.info(), result),
                decreases addr + geo.sec - kv_obj.addr_start,
            {
                let ghost n0 = kv_obj.node();
                let ghost m1 = self.medium();
                let ghost s0 = sector.info();
                let _ = self.read_kv(&mut kv_obj);
                if !kv_obj.crc_is_ok && kv_obj.status != KvStatus::PreWrite && kv_obj.status
                    != KvStatus::ErrHdr {
                    sector.remain = 0;
                    result = Err(FdbError::ReadErr);
                    break;
                }
                sector.empty_kv = kv_obj.addr_start.saturating_add(kv_obj.len);
                sector.remain = (sector.addr + self.sec_size) as i64 - (kv_obj.addr_start as i64
                    + kv_obj.len as i64);
                let next: u32 = self.get_next_kv_addr(sector, &kv_obj);
                if next == FAILED_ADDR {
                    break;
                }
                kv_obj.addr_start = next;
            }
            let ff_addr: u32 = continue_ff_addr(
                &mut self.storage,
                sector.empty_kv,
                sector.addr + self.sec_size,
            );
            if sector.empty_kv != ff_addr {
                sector.empty_kv = ff_addr;
                sector.remain = (self.sec_size as i64) - (ff_addr as i64 - sector.addr as i64);
            }
        }
        result
    }

    /// The address of the sector behind `pre_sec` on a walk that has come past
    /// `traversed_len` bytes, or `FAILED_ADDR` at its end.
    fn get_next_sector_addr(&self, pre_sec: &KvSecInfo, traversed_len: u32) -> (r: u32)
        requires
            self.inv(),
            pre_sec.fits(self.geo()),
        ensures
            addr_opt(r) == model::next_sector(self.geo(), pre_sec.info(), traversed_len as int),
            r != FAILED_ADDR ==> db::is_sector(self.geo(), r as int) && traversed_len
                <= self.geo().max,
    {
        next_sector_addr(self.sec_size, self.max_size, pre_sec, traversed_len)
    }
}

/// The address of the sector behind `pre_sec` in a database of these sizes.
fn next_sector_addr(sec_size: u32, max_size: u32, pre_sec: &KvSecInfo, traversed_len: u32) -> (r:
    u32)
    requires
        model::geo_ok(db::geo_of(sec_size, max_size)),
        pre_sec.fits(db::geo_of(sec_size, max_size)),
    ensures
        addr_opt(r) == model::next_sector(
            db::geo_of(sec_size, max_size),
            pre_sec.info(),
            traversed_len as int,
        ),
        r != FAILED_ADDR ==> db::is_sector(db::geo_of(sec_size, max_size), r as int)
            && traversed_len <= max_size,
{
    let block: u64 = if pre_sec.combined == SECTOR_NOT_COMBINED {
        sec_size as u64
    } else {
        0
    };
    proof {
        model::lemma_next_sector(
            db::geo_of(sec_size, max_size),
            pre_sec.info(),
            traversed_len as int,
        );
    }
    if traversed_len as u64 + block <= max_size as u64 {
        if (pre_sec.addr as u64) + block < max_size as u64 {
            pre_sec.addr + block as u32
        } else {
            0
        }
    } else {
        FAILED_ADDR
    }
}

/// Read the sector header at `addr`.
fn read_head<S: Storage>(storage: &mut S, addr: u32, sector: &mut KvSecInfo) -> (r: Result<()>)
    ensures
        final(sector).addr == addr,
        final(sector).combined == SECTOR_NOT_COMBINED || final(sector).combined == SECTOR_COMBINED,
        final(sector).remain == 0,
        r == model::head_result(final(sector).info()),
        (*old(storage)).regular() ==> {
            &&& (*final(storage)).regular()
            &&& (*final(storage)).medium() == (*old(storage)).medium()
            &&& final(sector).info() == model::sector_head((*old(storage)).medium(), addr as int)
        },
{
    proof {
        reveal(model::sector_head);
    }
    let mut hdr: [u8; 16] = [0u8; 16];
    assert(hdr@ =~= flash::zeros(16));
    let _ = storage.read(addr, &mut hdr);
    sector.store = SectorStoreStatus::Unused;
    sector.dirty = SectorDirtyStatus::Unused;
    sector.addr = addr;
    sector.empty_kv = FAILED_ADDR;
    sector.remain = 0;
    let magic: u32 = rd_u32(hdr.as_slice(), 4);
    let combined: u32 = rd_u32(hdr.as_slice(), 8);
    if magic != SECTOR_MAGIC_WORD || (combined != SECTOR_NOT_COMBINED && combined
        != SECTOR_COMBINED) {
        sector.check_ok = false;
        sector.combined = SECTOR_NOT_COMBINED;
        return Err(FdbError::InitFailed);
    }
    sector.check_ok = true;
    sector.combined = combined;
    sector.store = SectorStoreStatus::from_index(
        get_status(vstd::slice::slice_subrange(hdr.as_slice(), 0, 1), SECTOR_STORE_STATUS_NUM),
    );
    sector.dirty = SectorDirtyStatus::from_index(
        get_status(vstd::slice::slice_subrange(hdr.as_slice(), 1, 2), SECTOR_DIRTY_STATUS_NUM),
    );
    Ok(())
}

/// Look for a bad sector header on a walk over a storage of these sizes from the sector
/// `from` on. The storage is left alone: a database that may not be formatted is refused
/// for what this finds.
pub fn has_bad_header<S: Storage>(storage: &mut S, sec_size: u32, max_size: u32, from: u32) -> (r:
    bool)
    requires
        model::geo_ok(db::geo_of(sec_size, max_size)),
        db::is_sector(db::geo_of(sec_size, max_size), from as int),
    ensures
        (*old(storage)).regular() ==> {
            &&& (*final(storage)).regular()
            &&& (*final(storage)).medium() == (*old(storage)).medium()
            &&& model::check_headers(
                (*old(storage)).medium(),
                db::geo_of(sec_size, max_size),
                true,
                from as int,
                0,
                0,
            ) == ((*old(storage)).medium(), if r {
                1int
            } else {
                0int
            })
        },
{
    let mut sec_addr: u32 = from;
    let mut traversed_len: u32 = 0;
    let ghost geo = db::geo_of(sec_size, max_size);
    let ghost b = (*storage).regular();
    let ghost m = (*storage).medium();
    proof {
        db::lemma_geo(geo);
    }
    loop
        invariant
            geo == db::geo_of(sec_size, max_size),
            model::geo_ok(geo),
            b == (*old(storage)).regular(),
            m == (*old(storage)).medium(),
            b ==> (*storage).regular() && (*storage).medium() == m,
            db::is_sector(geo, sec_addr as int),
            traversed_len <= geo.max,
            2 * geo.sec <= geo.max,
            geo.max + geo.sec <= 0xFFFF_FFFF,
            b ==> model::check_headers(m, geo, true, from as int, 0, 0) == model::check_headers(
                m,
                geo,
                true,
                sec_addr as int,
                traversed_len as int,
                0,
            ),
        decreases geo.max + geo.sec - traversed_len,
    {
        traversed_len = traversed_len + sec_size;
        let mut s: KvSecInfo = KvSecInfo::blank();
        if read_head(storage, sec_addr, &mut s).is_err() {
            return true;
        }
        let next: u32 = next_sector_addr(sec_size, max_size, &s, traversed_len);
        if next == FAILED_ADDR {
            return false;
        }
        sec_addr = next;
    }
}

/// The byte of a one-byte status table in state `index`.
fn status_pattern(num: usize, index: usize) -> (r: u8)
    requires
        0 < index < num <= 8,
    ensures
        r == status::status_byte(index as int),
{
    let mut table: [u8; 1] = [0xFFu8; 1];
    let _ = set_status(&mut table, num, index);
    proof {
        let y = status::status_byte(index as int);
        assert(0xFFu8 & y == y) by (bit_vector);
    }
    table[0]
}

/// The header of a node with this name and value, its status erased.
fn kv_header(key: &[u8], value: &[u8]) -> (hdr: [u8; 24])
    requires
        key@.len() <= KV_NAME_MAX,
        model::record_len(key@, value@) <= u32::MAX,
    ensures
        hdr@ == model::record_header(key@, value@),
{
    let name_len: u32 = key.len() as u32;
    let value_len: u32 = value.len() as u32;
    let kv_len: u32 = KV_HDR_DATA_SIZE + wg_align(name_len) + wg_align(value_len);
    let mut hdr: [u8; 24] = [0xFFu8; 24];
    put_u32(&mut hdr, 4, KV_MAGIC_WORD);
    put_u32(&mut hdr, 8, kv_len);
    hdr[16] = name_len as u8;
    put_u32(&mut hdr, 20, value_len);
    let ghost lens = seq![key@.len() as u8, 0xFFu8, 0xFFu8, 0xFFu8];
    assert(hdr@.subrange(16, 20) =~= lens);
    assert(hdr@.subrange(20, 24) =~= codec::le32_bytes(value_len as int));
    let mut crc: u32 = calc_crc32(0, vstd::slice::slice_subrange(hdr.as_slice(), 16, 20));
    crc = calc_crc32(crc, vstd::slice::slice_subrange(hdr.as_slice(), 20, 24));
    crc = calc_crc32(crc, key);
    crc = calc_crc32(crc, value);
    put_u32(&mut hdr, 12, crc);
    assert(crc == model::record_crc(key@, value@));
    assert(hdr@ =~= model::record_header(key@, value@));
    hdr
}

/// Whether two byte strings are equal.
fn same_bytes(a: &[u8], b: &[u8]) -> (r: bool)
    ensures
        r == (a@ == b@),
{
    if a.len() != b.len() {
        return false;
    }
    let mut i: usize = 0;
    while i < a.len()
        invariant
            i <= a@.len(),
            a@.len() == b@.len(),
            forall|j: int| 0 <= j < i ==> a@[j] == b@[j],
        decreases a@.len() - i,
    {
        if a[i] != b[i] {
            return false;
        }
        i = i + 1;
    }
    assert(a@ =~= b@);
    true
}

impl<S: Storage> Kvdb<S> {
    // ------------------------------------------------------------------- writes

    /// Erase the sector at `addr` and write a fresh header.
    fn format_sector(&mut self, addr: u32, combined_value: u32) -> (r: Result<()>)
        requires
            old(self).inv(),
        ensures
            final(self).rest() == old(self).rest(),
            old(self).backed() ==> final(self).backed() && (final(self).medium(), r)
                == model::format(
                old(self).medium(),
                old(self).geo(),
                addr as int,
                combined_value as int,
            ),
    {
        match self.storage.erase(addr, self.sec_size) {
            Err(e) => {
                return Err(e);
            },
            Ok(_) => {},
        }
        let mut hdr: [u8; 16] = [0xFFu8; 16];
        hdr[0] = status_pattern(SECTOR_STORE_STATUS_NUM, SectorStoreStatus::Empty.index());
        hdr[1] = status_pattern(SECTOR_DIRTY_STATUS_NUM, SectorDirtyStatus::False.index());
        put_u32(&mut hdr, 4, SECTOR_MAGIC_WORD);
        put_u32(&mut hdr, 8, combined_value);
        put_u32(&mut hdr, 12, DATA_UNUSED);
        assert(hdr@ =~= model::fresh_sector_header(combined_value as int));
        self.storage.write(addr, &hdr, true)
    }

    /// Note in its header that `sector` takes in a node; returns whether it became full.
    fn update_sec_status(&mut self, sector: &KvSecInfo, new_kv_len: u32) -> (r: Result<bool>)
        requires
            old(self).inv(),
            sector.fits(old(self).geo()),
        ensures
            final(self).rest() == old(self).rest(),
            old(self).backed() ==> final(self).backed() && (final(self).medium(), r)
                == model::note_use(old(self).medium(), sector.info(), new_kv_len as int),
    {
        if sector.store == SectorStoreStatus::Empty {
            match write_status(
                &mut self.storage,
                sector.addr,
                SECTOR_STORE_STATUS_NUM,
                SectorStoreStatus::Using.index(),
                true,
            ) {
                Err(e) => Err(e),
                Ok(_) => Ok(false),
            }
        } else if sector.store == SectorStoreStatus::Using && (sector.remain
            < SEC_REMAIN_THRESHOLD || sector.remain - (new_kv_len as i64)
            < SEC_REMAIN_THRESHOLD) {
            match write_status(
                &mut self.storage,
                sector.addr,
                SECTOR_STORE_STATUS_NUM,
                SectorStoreStatus::Full.index(),
                true,
            ) {
                Err(e) => Err(e),
                Ok(_) => Ok(true),
            }
        } else {
            Ok(false)
        }
    }

    /// Write a node header: first the status that says the node is being written.
    fn write_kv_hdr(&mut self, addr: u32, hdr: &[u8; 24]) -> (r: Result<()>)
        requires
            addr + 4 <= u32::MAX,
        ensures
            final(self).rest() == old(self).rest(),
            old(self).backed() ==> final(self).backed() && (final(self).medium(), r)
                == model::write_header(old(self).medium(), addr as int, hdr@),
    {
        match write_status(
            &mut self.storage,
            addr,
            KV_STATUS_NUM,
            KvStatus::PreWrite.index(),
            false,
        ) {
            Err(e) => {
                return Err(e);
            },
            Ok(_) => {},
        }
        self.storage.write(
            addr + KV_MAGIC_OFFSET,
            vstd::slice::slice_subrange(hdr.as_slice(), 4, 24),
            false,
        )
    }

    /// Count empty and using sectors.
    fn count_sectors(&mut self) -> (r: (usize, usize))
        requires
            old(self).inv(),
        ensures
            final(self).rest() == old(self).rest(),
            old(self).backed() ==> {
                &&& final(self).backed()
                &&& final(self).medium() == old(self).medium()
                &&& (r.0 as int, r.1 as int) == model::count_sectors(
                    old(self).medium(),
                    old(self).geo(),
                    old(self).rest().oldest,
                    0,
                )
            },
    {
        let mut empty: usize = 0;
        let mut using: usize = 0;
        let mut sec_addr: u32 = self.oldest_addr;
        let mut traversed_len: u32 = 0;
        let ghost b = self.backed();
        let ghost geo = self.geo();
        let ghost m0 = self.medium();
        let ghost goal = model::count_sectors(m0, geo, self.rest().oldest, 0);
        loop
            invariant
                self.inv(),
                self.rest() == old(self).rest(),
                geo == self.geo(),
                b == old(self).backed(),
                m0 == old(self).medium(),
                b ==> self.backed() && self.medium() == m0,
                db::is_sector(geo, sec_addr as int),
                traversed_len <= geo.max,
                empty <= traversed_len,
                using <= traversed_len,
                goal == model::count_sectors(m0, geo, old(self).rest().oldest, 0),
                b ==> {
                    let rest = model::count_sectors(
                        m0,
                        geo,
                        sec_addr as int,
                        traversed_len as int,
                    );
                    goal == (empty + rest.0, using + rest.1)
                },
            decreases geo.max + geo.sec - traversed_len,
        {
            traversed_len = traversed_len + self.sec_size;
            let mut s: KvSecInfo = KvSecInfo::blank();
            let _ = self.read_sector_info(sec_addr, &mut s, false);
            if s.check_ok && s.store == SectorStoreStatus::Empty {
                empty = empty + 1;
            } else if s.check_ok && s.store == SectorStoreStatus::Using {
                using = using + 1;
            }
            let next: u32 = self.get_next_sector_addr(&s, traversed_len);
            if next == FAILED_ADDR {
                return (empty, using);
            }
            sec_addr = next;
        }
    }

    /// Scan sectors of a given store status for one with room.
    fn alloc_scan(&mut self, want: SectorStoreStatus, kv_size: u32) -> (r: Option<KvSecInfo>)
        requires
            old(self).inv(),
        ensures
            final(self).rest() == old(self).rest(),
            r matches Some(s) ==> s.fits(old(self).geo()) && s.placed(old(self).geo())
                && model::roomy(s.info(), kv_size as int, old(self).rest().gc_request),
            old(self).backed() ==> {
                &&& final(self).backed()
                &&& (final(self).medium(), sec_opt(r)) == model::alloc_scan(
                    old(self).medium(),
                    old(self).geo(),
                    old(self).rest().gc_request,
                    want,
                    kv_size as int,
                    old(self).rest().oldest,
                    0,
                )
            },
    {
        let mut sec_addr: u32 = self.oldest_addr;
        let mut traversed_len: u32 = 0;
        let ghost b = self.backed();
        let ghost geo = self.geo();
        let ghost rest = self.rest();
        let ghost goal = model::alloc_scan(
            self.medium(),
            geo,
            rest.gc_request,
            want,
            kv_size as int,
            rest.oldest,
            0,
        );
        loop
            invariant
                self.inv(),
                rest == old(self).rest(),
                self.rest() == rest,
                geo == self.geo(),
                geo == old(self).geo(),
                b == old(self).backed(),
                b ==> self.backed(),
                db::is_sector(geo, sec_addr as int),
                traversed_len <= geo.max,
                goal == model::alloc_scan(
                    old(self).medium(),
                    geo,
                    rest.gc_request,
                    want,
                    kv_size as int,
                    rest.oldest,
                    0,
                ),
                b ==> goal == model::alloc_scan(
                    self.medium(),
                    geo,
                    rest.gc_request,
                    want,
                    kv_size as int,
                    sec_addr as int,
                    traversed_len as int,
                ),
            decreases geo.max + geo.sec - traversed_len,
        {
            traversed_len = traversed_len + self.sec_size;
            let mut s: KvSecInfo = KvSecInfo::blank();
            let _ = self.read_sector_info(sec_addr, &mut s, false);
            if s.store == want {
                let _ = self.read_sector_info(sec_addr, &mut s, true);
                if s.check_ok && s.remain > kv_size as i64 + SEC_REMAIN_THRESHOLD && (s.dirty
                    == SectorDirtyStatus::False || (s.dirty == SectorDirtyStatus::True
                    && !self.gc_request)) {
                    return Some(s);
                }
            }
            let next: u32 = self.get_next_sector_addr(&s, traversed_len);
            if next == FAILED_ADDR {
                return None;
            }
            sec_addr = next;
        }
    }

    /// Find room for a node of `kv_size` bytes: its address, and its sector in `sector`.
    fn alloc_kv(&mut self, sector: &mut KvSecInfo, kv_size: u32) -> (r: u32)
        requires
            old(self).inv(),
        ensures
            final(self).fixed_part() == old(self).fixed_part(),
            final(self).inv(),
            r == FAILED_ADDR ==> *final(sector) == *old(sector),
            r != FAILED_ADDR ==> slot_ok(*final(sector), old(self).geo(), r, kv_size),
            old(self).backed() ==> {
                &&& final(self).backed()
                &&& (final(self).state(), slot_opt(*final(sector), r)) == model::find_room(
                    old(self).state(),
                    kv_size as int,
                )
            },
    {
        proof {
            reveal(model::find_room);
        }
        let (empty_count, using_count) = self.count_sectors();
        let mut empty_kv: u32 = FAILED_ADDR;
        if using_count > 0 {
            match self.alloc_scan(SectorStoreStatus::Using, kv_size) {
                Some(s) => {
                    *sector = s;
                    empty_kv = s.empty_kv;
                },
                None => {},
            }
        }
        if empty_count > 0 && empty_kv == FAILED_ADDR {
            if empty_count > GC_EMPTY_SEC_THRESHOLD || self.gc_request {
                match self.alloc_scan(SectorStoreStatus::Empty, kv_size) {
                    Some(s) => {
                        *sector = s;
                        empty_kv = s.empty_kv;
                    },
                    None => {},
                }
            } else {
                self.gc_request = true;
            }
        }
        empty_kv
    }

    // --------------------------------------------------------------------- find

    /// Find the live node with this name, and read it into `kv`.
    fn find_kv(&mut self, key: &[u8], kv: &mut Kv) -> (r: bool)
        requires
            old(self).inv(),
        ensures
            final(self).rest() == old(self).rest(),
            r ==> final(kv).node().at <= old(self).geo().max,
            r ==> model::is_live(final(kv).node(), key@),
            old(self).backed() ==> {
                &&& final(self).backed()
                &&& (final(self).medium(), final(kv).node(), r) == model::find_from(
                    old(self).medium(),
                    old(self).geo(),
                    key@,
                    old(self).rest().oldest,
                    0,
                    old(kv).node(),
                )
            },
    {
        self.find_kv_no_cache(key, kv)
    }

    fn find_kv_no_cache(&mut self, key: &[u8], kv: &mut Kv) -> (r: bool)
        requires
            old(self).inv(),
        ensures
            final(self).rest() == old(self).rest(),
            r ==> final(kv).node().at <= old(self).geo().max,
            r ==> model::is_live(final(kv).node(), key@),
            old(self).backed() ==> {
                &&& final(self).backed()
                &&& (final(self).medium(), final(kv).node(), r) == model::find_from(
                    old(self).medium(),
                    old(self).geo(),
                    key@,
                    old(self).rest().oldest,
                    0,
                    old(kv).node(),
                )
            },
    {
        let mut sec_addr: u32 = self.oldest_addr;
        let mut traversed_len: u32 = 0;
        let ghost b = self.backed();
        let ghost geo = self.geo();
        let ghost goal = model::find_from(
            self.medium(),
            geo,
            key@,
            self.rest().oldest,
            0,
            kv.node(),
        );
        loop
            invariant
                self.inv(),
                self.rest() == old(self).rest(),
                geo == self.geo(),
                geo == old(self).geo(),
                b == old(self).backed(),
                b ==> self.backed(),
                db::is_sector(geo, sec_addr as int),
                traversed_len <= geo.max,
                goal == model::find_from(
                    old(self).medium(),
                    geo,
                    key@,
                    old(self).rest().oldest,
                    0,
                    old(kv).node(),
                ),
                b ==> goal == model::find_from(
                    self.medium(),
                    geo,
                    key@,
                    sec_addr as int,
                    traversed_len as int,
                    kv.node(),
                ),
            decreases geo.max + geo.sec - traversed_len,
        {
            let ghost m0 = self.medium();
            let ghost n0 = kv.node();
            traversed_len = traversed_len + self.sec_size;
            let mut sector: KvSecInfo = KvSecInfo::blank();
            if self.read_sector_info(sec_addr, &mut sector, false).is_ok() && (sector.store
                == SectorStoreStatus::Using || sector.store == SectorStoreStatus::Full) {
                kv.addr_start = sector.addr + SECTOR_HDR_DATA_SIZE;
                let ghost sub = model::find_in_sector(
                    m0,
                    geo,
                    sector.info(),
                    kv.node(),
                    key@,
                );
                loop
                    invariant_except_break
                        self.inv(),
                        self.rest() == old(self).rest(),
                        geo == self.geo(),
                        geo == old(self).geo(),
                        b == old(self).backed(),
                        b ==> self.backed(),
                        sector.fits(geo),
                        sector.addr == sec_addr,
                        sector.addr + 16 <= kv.addr_start <= sector.addr + geo.sec,
                        b ==> sub == model::find_in_sector(
                            self.medium(),
                            geo,
                            sector.info(),
                            kv.node(),
                            key@,
                        ),
                        goal == model::find_from(
                            old(self).medium(),
                            geo,
                            key@,
                            old(self).rest().oldest,
                            0,
                            old(kv).node(),
                        ),
                        b && sub.2 ==> goal == sub,
                    ensures
                        self.inv(),
                        self.rest() == old(self).rest(),
                        b ==> self.backed() && sub == (self.medium(), kv.node(), false),
                    decreases sector.addr + geo.sec - kv.addr_start,
                {
                    let _ = self.read_kv(kv);
                    let nl: usize = kv.name_len as usize;
                    if kv.crc_is_ok && kv.status == KvStatus::Write && nl == key.len() && nl
                        <= KV_NAME_MAX && same_bytes(
                        vstd::slice::slice_subrange(kv.name.as_slice(), 0, nl),
                        key,
                    ) {
                        return true;
                    }
                    let next: u32 = self.get_next_kv_addr(&sector, kv);
                    if next == FAILED_ADDR {
                        break;
                    }
                    kv.addr_start = next;
                }
            }
            let next: u32 = self.get_next_sector_addr(&sector, traversed_len);
            if next == FAILED_ADDR {
                return false;
            }
            sec_addr = next;
        }
    }

    /// Mark a node as about to be deleted, or as deleted, and its sector as dirty. The
    /// node is `old_kv`, or the live node named `key`.
    fn del_kv(&mut self, key: Option<&[u8]>, old_kv: Option<&Kv>, complete_del: bool) -> (r:
        Result<()>)
        requires
            old(self).inv(),
            key is Some || old_kv is Some,
            old_kv matches Some(k) ==> k.node().at <= old(self).geo().max,
        ensures
            final(self).rest() == old(self).rest(),
            old(self).backed() ==> {
                &&& final(self).backed()
                &&& (final(self).medium(), r) == (match old_kv {
                    Some(k) => model::delete_at(
                        old(self).medium(),
                        old(self).geo(),
                        k.node().at,
                        complete_del,
                    ),
                    None => {
                        let (m1, n, found) = model::find(old(self).state(), key.unwrap()@);
                        if found {
                            model::delete_at(m1, old(self).geo(), n.at, complete_del)
                        } else {
                            (m1, Err(FdbError::KvNameErr))
                        }
                    },
                })
            },
    {
        proof {
            reveal(model::find);
            reveal(model::delete_at);
        }
        let mut local: Kv = Kv::blank();
        let addr_start: u32 = match old_kv {
            Some(k) => k.addr_start,
            None => {
                match key {
                    Some(name) => {
                        if self.find_kv(name, &mut local) {
                            local.addr_start
                        } else {
                            return Err(FdbError::KvNameErr);
                        }
                    },
                    None => {
                        return Err(FdbError::KvNameErr);
                    },
                }
            },
        };
        let ghost m1 = self.medium();
        if !complete_del {
            match write_status(
                &mut self.storage,
                addr_start,
                KV_STATUS_NUM,
                KvStatus::PreDelete.index(),
                false,
            ) {
                Err(e) => {
                    return Err(e);
                },
                Ok(_) => {},
            }
        } else {
            match write_status(
                &mut self.storage,
                addr_start,
                KV_STATUS_NUM,
                KvStatus::Deleted.index(),
                true,
            ) {
                Err(e) => {
                    return Err(e);
                },
                Ok(_) => {},
            }
        }
        let dirty_status_addr: u32 = align_down(addr_start, self.sec_size) + SECTOR_DIRTY_OFFSET;
        if read_status(&mut self.storage, dirty_status_addr, SECTOR_DIRTY_STATUS_NUM)
            == SectorDirtyStatus::False.index() {
            return write_status(
                &mut self.storage,
                dirty_status_addr,
                SECTOR_DIRTY_STATUS_NUM,
                SectorDirtyStatus::True.index(),
                true,
            );
        }
        Ok(())
    }
}

impl<S: Storage> Kvdb<S> {
    // -------------------------------------------------------------- garbage collection

    /// Move a node to another sector. With the recovery check on, a node that was about
    /// to be deleted is dropped where a live node with its name exists.
    fn move_kv(&mut self, kv: &Kv) -> (r: Result<()>)
        requires
            old(self).inv(),
            kv.node().at <= old(self).geo().max,
            kv.node().len >= 24,
        ensures
            final(self).fixed_part() == old(self).fixed_part(),
            final(self).inv(),
            old(self).backed() ==> final(self).backed() && (final(self).state(), r)
                == model::move_node(old(self).state(), kv.node()),
    {
        proof {
            reveal(model::move_node);
            reveal(model::find);
        }
        if kv.status == KvStatus::Write {
            let _ = self.del_kv(None, Some(kv), false);
        }
        let mut sector: KvSecInfo = KvSecInfo::blank();
        let kv_addr: u32 = self.alloc_kv(&mut sector, kv.len);
        if kv_addr == FAILED_ADDR {
            return Err(FdbError::SavedFull);
        }
        let ghost st1 = self.state();
        if self.in_recovery_check && kv.status == KvStatus::PreDelete {
            let nl: usize = kv.name_len as usize;
            if nl <= KV_NAME_MAX {
                let mut kv_bak: Kv = Kv::blank();
                if self.find_kv_no_cache(
                    vstd::slice::slice_subrange(kv.name.as_slice(), 0, nl),
                    &mut kv_bak,
                ) {
                    let _ = self.del_kv(None, Some(kv), true);
                    return Ok(());
                }
            }
        }
        let result: Result<()> = self.move_kv_body(kv, &sector, kv_addr);
        let _ = self.del_kv(None, Some(kv), true);
        result
    }

    /// Copy a node to `kv_addr`, the free place of `sector`.
    fn move_kv_body(&mut self, kv: &Kv, sector: &KvSecInfo, kv_addr: u32) -> (r: Result<()>)
        requires
            old(self).inv(),
            kv.node().len >= 24,
            slot_ok(*sector, old(self).geo(), kv_addr, kv.node().len as u32),
        ensures
            final(self).rest() == old(self).rest(),
            old(self).backed() ==> final(self).backed() && (final(self).medium(), r)
                == model::move_body(old(self).medium(), kv.node(), sector.info()),
    {
        match self.update_sec_status(sector, kv.len) {
            Err(e) => {
                return Err(e);
            },
            Ok(_) => {},
        }
        match write_status(
            &mut self.storage,
            kv_addr,
            KV_STATUS_NUM,
            KvStatus::PreWrite.index(),
            false,
        ) {
            Err(e) => {
                return Err(e);
            },
            Ok(_) => {},
        }
        let kv_len: u32 = kv.len - KV_MAGIC_OFFSET;
        let mut buf: Vec<u8> = vec![0u8; 32];
        assert(buf@ =~= flash::zeros(32));
        let mut len: u32 = 0;
        let ghost b = self.backed();
        let ghost goal = model::copy_data(
            self.medium(),
            kv.node().at + 4,
            kv_addr + 4,
            kv_len as int,
            0,
            buf@,
        );
        assert(old(self).backed() ==> b);
        while len < kv_len
            invariant
                len <= kv_len,
                kv_len == kv.len - 4,
                buf@.len() == 32,
                kv_addr + kv.len <= 0xFFFF_FFFF,
                self.rest() == old(self).rest(),
                old(self).backed() ==> b,
                b ==> self.backed(),
                b ==> goal == model::copy_data(
                    self.medium(),
                    kv.node().at + 4,
                    kv_addr + 4,
                    kv_len as int,
                    len as int,
                    buf@,
                ),
                old(self).backed() ==> model::move_body(
                    old(self).medium(),
                    kv.node(),
                    sector.info(),
                ) == (match goal.1 {
                    Err(e) => (goal.0, Err(e)),
                    Ok(_) => (
                        flash::put_status(goal.0, kv_addr as int, 2, true),
                        flash::put_status_result(goal.0, kv_addr as int, 2),
                    ),
                }),
            decreases kv_len - len,
        {
            let size: usize = if kv_len - len >= 32 {
                32
            } else {
                (kv_len - len) as usize
            };
            {
                let (head, _tail) = buf.as_mut_slice().split_at_mut(size);
                self.fetch_at(kv.addr_start as u64 + 4 + len as u64, head);
            }
            match self.storage.write(
                kv_addr + KV_MAGIC_OFFSET + len,
                vstd::slice::slice_subrange(buf.as_slice(), 0, size),
                true,
            ) {
                Err(e) => {
                    return Err(e);
                },
                Ok(_) => {},
            }
            len = len + size as u32;
        }
        write_status(
            &mut self.storage,
            kv_addr,
            KV_STATUS_NUM,
            KvStatus::Write.index(),
            true,
        )
    }

    /// Collect one sector. Returns true to stop the walk.
    fn do_gc_one(
        &mut self,
        sector: &KvSecInfo,
        setting_free_size: u32,
        last_gc_sec_addr: &mut u32,
    ) -> (r: bool)
        requires
            old(self).inv(),
            sector.fits(old(self).geo()),
            db::is_sector(old(self).geo(), *old(last_gc_sec_addr) as int),
        ensures
            final(self).fixed_part() == old(self).fixed_part(),
            final(self).inv(),
            db::is_sector(old(self).geo(), *final(last_gc_sec_addr) as int),
            old(self).backed() ==> {
                &&& final(self).backed()
                &&& (final(self).state(), *final(last_gc_sec_addr) as int, r)
                    == model::collect_sector(
                    old(self).state(),
                    sector.info(),
                    setting_free_size as int,
                    *old(last_gc_sec_addr) as int,
                )
            },
    {
        proof {
            reveal(model::collect_sector);
        }
        if !(sector.check_ok && (sector.dirty == SectorDirtyStatus::True || sector.dirty
            == SectorDirtyStatus::Gc)) {
            return false;
        }
        let ghost b = self.backed();
        let ghost geo = self.geo();
        let _ = write_status(
            &mut self.storage,
            sector.addr + SECTOR_DIRTY_OFFSET,
            SECTOR_DIRTY_STATUS_NUM,
            SectorDirtyStatus::Gc.index(),
            true,
        );
        let mut kv: Kv = Kv::blank();
        kv.addr_start = sector.addr + SECTOR_HDR_DATA_SIZE;
        let ghost goal = model::evacuate(self.state(), sector.info(), kv.node());
        loop
            invariant_except_break
                self.inv(),
                self.fixed_part() == old(self).fixed_part(),
                geo == self.geo(),
                geo == old(self).geo(),
                b == old(self).backed(),
                b ==> self.backed(),
                sector.fits(geo),
                sector.addr + 16 <= kv.addr_start <= sector.addr + geo.sec,
                b ==> goal == model::evacuate(self.state(), sector.info(), kv.node()),
            ensures
                self.inv(),
                self.fixed_part() == old(self).fixed_part(),
                b ==> self.backed() && goal == self.state(),
            decreases sector.addr + geo.sec - kv.addr_start,
        {
            let _ = self.read_kv(&mut kv);
            if kv.crc_is_ok && (kv.status == KvStatus::Write || kv.status == KvStatus::PreDelete) {
                let _ = self.move_kv(&kv);
            }
            let next: u32 = self.get_next_kv_addr(sector, &kv);
            if next == FAILED_ADDR {
                break;
            }
            kv.addr_start = next;
        }
        let _ = self.format_sector(sector.addr, SECTOR_NOT_COMBINED);
        let prev: u32 = *last_gc_sec_addr;
        *last_gc_sec_addr = sector.addr;
        let oldest: u32 = self.get_next_sector_addr(sector, 0);
        proof {
            model::lemma_next_sector(geo, sector.info(), 0);
            db::lemma_geo(geo);
        }
        self.oldest_addr = oldest;
        let mut last_gc_sector: KvSecInfo = KvSecInfo::blank();
        if self.read_sector_info(prev, &mut last_gc_sector, true).is_ok() && last_gc_sector.remain
            > setting_free_size as i64 {
            return true;
        }
        false
    }

    /// Collect garbage until a sector with room for `free_size` bytes is there.
    fn gc_collect_by_free_size(&mut self, free_size: u32)
        requires
            old(self).inv(),
        ensures
            final(self).fixed_part() == old(self).fixed_part(),
            final(self).inv(),
            !final(self).rest().gc_request,
            old(self).backed() ==> final(self).backed() && final(self).state() == model::gc(
                old(self).state(),
                free_size as int,
            ),
    {
        proof {
            reveal(model::gc);
        }
        // Count empty sectors and remember the last empty sector address.
        let mut empty_sec_num: usize = 0;
        let mut empty_sec_addr: u32 = 0;
        let ghost b = self.backed();
        let ghost geo = self.geo();
        let ghost m0 = self.medium();
        let ghost st0 = self.state();
        {
            let mut sec_addr: u32 = self.oldest_addr;
            let mut traversed_len: u32 = 0;
            let ghost goal = model::empty_sectors(m0, geo, st0.oldest, 0, 0, 0);
            proof {
                db::lemma_geo(geo);
                vstd::arithmetic::div_mod::lemma_small_mod(0, geo.sec as nat);
            }
            loop
                invariant_except_break
                    self.inv(),
                    self.rest() == old(self).rest(),
                    geo == self.geo(),
                    b == old(self).backed(),
                    m0 == old(self).medium(),
                    b ==> self.backed() && self.medium() == m0,
                    db::is_sector(geo, sec_addr as int),
                    db::is_sector(geo, empty_sec_addr as int),
                    traversed_len <= geo.max,
                    empty_sec_num <= traversed_len,
                    b ==> goal == model::empty_sectors(
                        m0,
                        geo,
                        sec_addr as int,
                        traversed_len as int,
                        empty_sec_num as int,
                        empty_sec_addr as int,
                    ),
                ensures
                    self.inv(),
                    self.rest() == old(self).rest(),
                    b ==> self.backed() && self.medium() == m0,
                    db::is_sector(geo, empty_sec_addr as int),
                    b ==> goal == (empty_sec_num as int, empty_sec_addr as int),
                decreases geo.max + geo.sec - traversed_len,
            {
                traversed_len = traversed_len + self.sec_size;
                let mut s: KvSecInfo = KvSecInfo::blank();
                let _ = self.read_sector_info(sec_addr, &mut s, false);
                if s.store == SectorStoreStatus::Empty && s.check_ok {
                    empty_sec_num = empty_sec_num + 1;
                    empty_sec_addr = s.addr;
                }
                let next: u32 = self.get_next_sector_addr(&s, traversed_len);
                if next == FAILED_ADDR {
                    break;
                }
                sec_addr = next;
            }
        }
        if empty_sec_num <= GC_EMPTY_SEC_THRESHOLD {
            let mut last_gc_sec_addr: u32 = empty_sec_addr;
            let mut sec_addr: u32 = self.oldest_addr;
            let mut traversed_len: u32 = 0;
            let ghost goal = model::collect_from(
                st0,
                free_size as int,
                empty_sec_addr as int,
                st0.oldest,
                0,
            );
            loop
                invariant_except_break
                    self.inv(),
                    self.fixed_part() == old(self).fixed_part(),
                    geo == self.geo(),
                    b == old(self).backed(),
                    b ==> self.backed(),
                    db::is_sector(geo, sec_addr as int),
                    db::is_sector(geo, last_gc_sec_addr as int),
                    traversed_len <= geo.max,
                    b ==> goal == model::collect_from(
                        self.state(),
                        free_size as int,
                        last_gc_sec_addr as int,
                        sec_addr as int,
                        traversed_len as int,
                    ),
                ensures
                    self.inv(),
                    self.fixed_part() == old(self).fixed_part(),
                    b ==> self.backed() && goal == self.state(),
                decreases geo.max + geo.sec - traversed_len,
            {
                traversed_len = traversed_len + self.sec_size;
                let mut s: KvSecInfo = KvSecInfo::blank();
                let _ = self.read_sector_info(sec_addr, &mut s, false);
                if self.do_gc_one(&s, free_size, &mut last_gc_sec_addr) {
                    break;
                }
                let next: u32 = self.get_next_sector_addr(&s, traversed_len);
                if next == FAILED_ADDR {
                    break;
                }
                sec_addr = next;
            }
        }
        self.gc_request = false;
    }

    /// Collect all garbage.
    fn gc_collect(&mut self)
        requires
            old(self).inv(),
        ensures
            final(self).fixed_part() == old(self).fixed_part(),
            final(self).inv(),
            !final(self).rest().gc_request,
            old(self).backed() ==> final(self).backed() && final(self).state() == model::gc(
                old(self).state(),
                old(self).geo().max,
            ),
    {
        self.gc_collect_by_free_size(self.max_size);
    }

    // ------------------------------------------------------------------------ setting

    /// Find room for a node, collecting garbage and retrying once if needed.
    fn new_kv(&mut self, sector: &mut KvSecInfo, kv_size: u32) -> (r: u32)
        requires
            old(self).inv(),
        ensures
            final(self).fixed_part() == old(self).fixed_part(),
            final(self).inv(),
            r == FAILED_ADDR ==> *final(sector) == *old(sector),
            r != FAILED_ADDR ==> slot_ok(*final(sector), old(self).geo(), r, kv_size),
            old(self).backed() ==> {
                &&& final(self).backed()
                &&& (final(self).state(), slot_opt(*final(sector), r)) == model::new_room(
                    old(self).state(),
                    kv_size as int,
                )
            },
    {
        proof {
            reveal(model::new_room);
        }
        let empty_kv: u32 = self.alloc_kv(sector, kv_size);
        if empty_kv != FAILED_ADDR || !self.gc_request {
            return empty_kv;
        }
        self.gc_collect_by_free_size(kv_size);
        let empty_kv: u32 = self.alloc_kv(sector, kv_size);
        if empty_kv == FAILED_ADDR {
            self.gc_request = false;
        }
        empty_kv
    }

    fn new_kv_ex(&mut self, sector: &mut KvSecInfo, key_len: u32, buf_len: u32) -> (r: u32)
        requires
            old(self).inv(),
            24 + key_len + buf_len <= u32::MAX,
        ensures
            final(self).fixed_part() == old(self).fixed_part(),
            final(self).inv(),
            r != FAILED_ADDR ==> slot_ok(
                *final(sector),
                old(self).geo(),
                r,
                (24 + key_len + buf_len) as u32,
            ),
            old(self).backed() ==> {
                &&& final(self).backed()
                &&& (final(self).state(), slot_opt(*final(sector), r)) == model::new_room(
                    old(self).state(),
                    24 + key_len + buf_len,
                )
            },
    {
        let kv_len: u32 = KV_HDR_DATA_SIZE + wg_align(key_len) + wg_align(buf_len);
        self.new_kv(sector, kv_len)
    }

    /// Write a whole node at `kv_addr`: header, name, value, and last the status that
    /// says it is live.
    fn write_kv(&mut self, kv_addr: u32, key: &[u8], value: &[u8]) -> (r: Result<()>)
        requires
            key@.len() <= KV_NAME_MAX,
            kv_addr + model::record_len(key@, value@) <= u32::MAX,
        ensures
            final(self).rest() == old(self).rest(),
            old(self).backed() ==> final(self).backed() && (final(self).medium(), r)
                == model::write_record(old(self).medium(), kv_addr as int, key@, value@),
    {
        let name_len: u32 = key.len() as u32;
        let hdr: [u8; 24] = kv_header(key, value);
        match self.write_kv_hdr(kv_addr, &hdr) {
            Err(e) => {
                return Err(e);
            },
            Ok(_) => {},
        }
        match write_align(&mut self.storage, kv_addr + KV_HDR_DATA_SIZE, key) {
            Err(e) => {
                return Err(e);
            },
            Ok(_) => {},
        }
        match write_align(
            &mut self.storage,
            kv_addr + KV_HDR_DATA_SIZE + wg_align(name_len),
            value,
        ) {
            Err(e) => {
                return Err(e);
            },
            Ok(_) => {},
        }
        write_status(
            &mut self.storage,
            kv_addr,
            KV_STATUS_NUM,
            KvStatus::Write.index(),
            true,
        )
    }

    /// Write a node: to the free place of `sector` if it has one, else to one found now.
    fn create_kv_blob(&mut self, sector: &mut KvSecInfo, key: &[u8], value: &[u8]) -> (r: Result<()>)
        requires
            old(self).inv(),
            model::record_len(key@, value@) <= u32::MAX,
            old(sector).info().empty != FAILED_ADDR ==> slot_ok(
                *old(sector),
                old(self).geo(),
                old(sector).info().empty as u32,
                model::record_len(key@, value@) as u32,
            ),
        ensures
            final(self).fixed_part() == old(self).fixed_part(),
            final(self).inv(),
            old(self).backed() ==> {
                let slot = slot_opt(*old(sector), old(sector).info().empty as u32);
                &&& final(self).backed()
                &&& (final(self).state(), r) == model::create(
                    old(self).state(),
                    slot,
                    key@,
                    value@,
                )
            },
    {
        proof {
            reveal(model::create_in);
        }
        if key.len() > KV_NAME_MAX {
            return Err(FdbError::KvNameErr);
        }
        let name_len: u32 = key.len() as u32;
        let value_len: u32 = value.len() as u32;
        let kv_len: u32 = KV_HDR_DATA_SIZE + wg_align(name_len) + wg_align(value_len);
        if kv_len > self.sec_size - SECTOR_HDR_DATA_SIZE {
            return Err(FdbError::SavedFull);
        }
        let mut kv_addr: u32 = sector.empty_kv;
        if kv_addr == FAILED_ADDR {
            kv_addr = self.new_kv(sector, kv_len);
        }
        if kv_addr == FAILED_ADDR {
            return Err(FdbError::SavedFull);
        }
        let ghost st1 = self.state();
        assert(slot_ok(*sector, self.geo(), kv_addr, kv_len));
        assert(old(self).backed() ==> {
            let slot = slot_opt(*old(sector), old(sector).info().empty as u32);
            model::create(old(self).state(), slot, key@, value@) == model::create_in(
                st1,
                sector.info(),
                key@,
                value@,
            )
        });
        let is_full: bool = match self.update_sec_status(sector, kv_len) {
            Err(e) => {
                return Err(e);
            },
            Ok(full) => full,
        };
        match self.write_kv(kv_addr, key, value) {
            Err(e) => {
                return Err(e);
            },
            Ok(_) => {},
        }
        if is_full {
            self.gc_request = true;
        }
        Ok(())
    }

    /// Set a KV, whether or not it exists.
    fn set_kv(&mut self, key: &[u8], value: &[u8]) -> (r: Result<()>)
        requires
            old(self).inv(),
            model::record_len(key@, value@) <= u32::MAX,
        ensures
            final(self).fixed_part() == old(self).fixed_part(),
            final(self).inv(),
            old(self).backed() ==> final(self).backed() && (final(self).state(), r)
                == model::set_value(old(self).state(), key@, value@),
    {
        proof {
            reveal(model::find);
        }
        let mut cur_sector: KvSecInfo = KvSecInfo::blank();
        let room: u32 = self.new_kv_ex(&mut cur_sector, key.len() as u32, value.len() as u32);
        if room == FAILED_ADDR {
            return Err(FdbError::SavedFull);
        }
        let mut cur_kv: Kv = Kv::blank();
        let kv_is_found: bool = self.find_kv(key, &mut cur_kv);
        let mut result: Result<()> = Ok(());
        if kv_is_found {
            result = self.del_kv(Some(key), Some(&cur_kv), false);
        }
        if result.is_ok() {
            result = self.create_kv_blob(&mut cur_sector, key, value);
        }
        if kv_is_found && result.is_ok() {
            result = self.del_kv(Some(key), Some(&cur_kv), true);
        }
        if self.gc_request {
            let fs: u32 = KV_HDR_DATA_SIZE + wg_align(key.len() as u32) + wg_align(
                value.len() as u32,
            );
            self.gc_collect_by_free_size(fs);
        }
        result
    }
}

impl<S: Storage> Kvdb<S> {
    // -------------------------------------------------------------------- init / load

    /// Find the oldest sector: the last one with data right behind an empty one.
    fn find_oldest_addr(&mut self)
        requires
            model::geo_ok(old(self).geo()),
            model::defaults_ok(old(self).rest().defaults),
        ensures
            final(self).fixed_part() == old(self).fixed_part(),
            final(self).inv(),
            final(self).rest().gc_request == old(self).rest().gc_request,
            old(self).backed() ==> {
                &&& final(self).backed()
                &&& final(self).medium() == old(self).medium()
                &&& final(self).rest().oldest == model::oldest_from(
                    old(self).medium(),
                    old(self).geo(),
                    0,
                    0,
                    SectorStoreStatus::Unused,
                    0,
                )
            },
    {
        self.oldest_addr = 0;
        let mut sector_oldest_addr: u32 = 0;
        let mut last_status: SectorStoreStatus = SectorStoreStatus::Unused;
        let mut sec_addr: u32 = 0;
        let mut traversed_len: u32 = 0;
        let ghost b = self.backed();
        let ghost geo = self.geo();
        let ghost m0 = self.medium();
        let ghost goal = model::oldest_from(m0, geo, 0, 0, SectorStoreStatus::Unused, 0);
        proof {
            db::lemma_geo(geo);
            vstd::arithmetic::div_mod::lemma_small_mod(0, geo.sec as nat);
        }
        loop
            invariant_except_break
                self.inv(),
                self.fixed_part() == old(self).fixed_part(),
                self.rest().gc_request == old(self).rest().gc_request,
                geo == self.geo(),
                b == old(self).backed(),
                b ==> self.backed() && self.medium() == m0,
                db::is_sector(geo, sec_addr as int),
                db::is_sector(geo, sector_oldest_addr as int),
                traversed_len <= geo.max,
                b ==> goal == model::oldest_from(
                    m0,
                    geo,
                    sec_addr as int,
                    traversed_len as int,
                    last_status,
                    sector_oldest_addr as int,
                ),
            ensures
                self.inv(),
                self.fixed_part() == old(self).fixed_part(),
                self.rest().gc_request == old(self).rest().gc_request,
                b ==> self.backed() && self.medium() == m0,
                db::is_sector(geo, sector_oldest_addr as int),
                b ==> goal == sector_oldest_addr,
            decreases geo.max + geo.sec - traversed_len,
        {
            traversed_len = traversed_len + self.sec_size;
            let mut s: KvSecInfo = KvSecInfo::blank();
            let _ = self.read_sector_info(sec_addr, &mut s, false);
            if last_status == SectorStoreStatus::Empty && (s.store == SectorStoreStatus::Full
                || s.store == SectorStoreStatus::Using) {
                sector_oldest_addr = s.addr;
            }
            last_status = s.store;
            let next: u32 = self.get_next_sector_addr(&s, traversed_len);
            if next == FAILED_ADDR {
                break;
            }
            sec_addr = next;
        }
        self.oldest_addr = sector_oldest_addr;
    }

    fn sector_num(&self) -> (r: usize)
        requires
            self.inv(),
        ensures
            r == self.geo().max / self.geo().sec,
    {
        (self.max_size / self.sec_size) as usize
    }

    /// Check sector headers, formatting bad ones (unless the database may not be
    /// formatted); returns the number of bad ones.
    fn check_sec_headers(&mut self) -> (r: usize)
        requires
            old(self).inv(),
        ensures
            final(self).rest() == old(self).rest(),
            old(self).backed() ==> {
                &&& final(self).backed()
                &&& (final(self).medium(), r as int) == model::check_headers(
                    old(self).medium(),
                    old(self).geo(),
                    old(self).rest().fixed,
                    old(self).rest().oldest,
                    0,
                    0,
                )
            },
    {
        if self.not_formatable {
            let bad: bool = has_bad_header(
                &mut self.storage,
                self.sec_size,
                self.max_size,
                self.oldest_addr,
            );
            return if bad {
                1
            } else {
                0
            };
        }
        let mut check_failed_count: usize = 0;
        let mut sec_addr: u32 = self.oldest_addr;
        let mut traversed_len: u32 = 0;
        let ghost b = self.backed();
        let ghost geo = self.geo();
        let ghost rest = self.rest();
        let ghost goal = model::check_headers(
            self.medium(),
            geo,
            rest.fixed,
            rest.oldest,
            0,
            0,
        );
        loop
            invariant_except_break
                self.inv(),
                rest == old(self).rest(),
                self.rest() == rest,
                !rest.fixed,
                geo == self.geo(),
                b == old(self).backed(),
                b ==> self.backed(),
                db::is_sector(geo, sec_addr as int),
                traversed_len <= geo.max,
                check_failed_count <= traversed_len,
                b ==> goal == model::check_headers(
                    self.medium(),
                    geo,
                    rest.fixed,
                    sec_addr as int,
                    traversed_len as int,
                    check_failed_count as int,
                ),
            ensures
                self.rest() == rest,
                b ==> self.backed() && goal == (self.medium(), check_failed_count as int),
            decreases geo.max + geo.sec - traversed_len,
        {
            traversed_len = traversed_len + self.sec_size;
            let mut s: KvSecInfo = KvSecInfo::blank();
            let _ = self.read_sector_info(sec_addr, &mut s, false);
            if !s.check_ok {
                check_failed_count = check_failed_count + 1;
                let _ = self.format_sector(s.addr, SECTOR_NOT_COMBINED);
            }
            let next: u32 = self.get_next_sector_addr(&s, traversed_len);
            if next == FAILED_ADDR {
                break;
            }
            sec_addr = next;
        }
        check_failed_count
    }

    /// Resume garbage collection that was interrupted.
    fn resume_gc(&mut self)
        requires
            old(self).inv(),
        ensures
            final(self).fixed_part() == old(self).fixed_part(),
            final(self).inv(),
            old(self).backed() ==> final(self).backed() && final(self).state() == model::resume_gc(
                old(self).state(),
                old(self).rest().oldest,
                0,
            ),
    {
        let mut sec_addr: u32 = self.oldest_addr;
        let mut traversed_len: u32 = 0;
        let ghost b = self.backed();
        let ghost geo = self.geo();
        let ghost goal = model::resume_gc(self.state(), self.rest().oldest, 0);
        loop
            invariant_except_break
                self.inv(),
                self.fixed_part() == old(self).fixed_part(),
                geo == self.geo(),
                b == old(self).backed(),
                b ==> self.backed(),
                db::is_sector(geo, sec_addr as int),
                traversed_len <= geo.max,
                b ==> goal == model::resume_gc(
                    self.state(),
                    sec_addr as int,
                    traversed_len as int,
                ),
            ensures
                self.inv(),
                self.fixed_part() == old(self).fixed_part(),
                b ==> self.backed() && goal == self.state(),
            decreases geo.max + geo.sec - traversed_len,
        {
            traversed_len = traversed_len + self.sec_size;
            let mut s: KvSecInfo = KvSecInfo::blank();
            let _ = self.read_sector_info(sec_addr, &mut s, false);
            if s.check_ok && s.dirty == SectorDirtyStatus::Gc {
                self.gc_request = true;
                self.gc_collect();
            }
            let next: u32 = self.get_next_sector_addr(&s, traversed_len);
            if next == FAILED_ADDR {
                break;
            }
            sec_addr = next;
        }
    }

    /// Load the database: check the headers, format what was never formatted, resume
    /// garbage collection, recover nodes.
    fn kv_load(&mut self) -> (r: Result<()>)
        requires
            old(self).inv(),
        ensures
            final(self).settings() == old(self).settings(),
            r is Ok ==> !final(self).rest().recovering,
            final(self).inv(),
            old(self).backed() ==> final(self).backed() && (final(self).state(), r) == model::load(
                old(self).state(),
            ),
    {
        proof {
            reveal(model::load);
        }
        self.in_recovery_check = true;
        let ghost st0 = self.state();
        let ghost b = self.backed();
        let ghost fixed = self.fixed_part();
        let check_failed_count: usize = self.check_sec_headers();
        if self.not_formatable && check_failed_count > 0 {
            return Err(FdbError::ReadErr);
        }
        if check_failed_count == self.sector_num() {
            let _ = self.set_default();
        }
        self.resume_gc();
        // Recover any half-written / pre-deleted KVs, collecting garbage and retrying if
        // needed.
        let mut rounds: u32 = self.max_size;
        let ghost goal = model::recover_rounds(self.state(), rounds as int);
        loop
            invariant_except_break
                self.inv(),
                self.fixed_part() == fixed,
                b ==> self.backed(),
                b ==> goal == model::recover_rounds(self.state(), rounds as int),
            ensures
                self.inv(),
                self.fixed_part() == fixed,
                b ==> self.backed() && goal == self.state(),
            decreases rounds,
        {
            self.recover_kvs_pass();
            if self.gc_request && rounds > 0 {
                self.gc_collect();
                rounds = rounds - 1;
            } else {
                break;
            }
        }
        self.in_recovery_check = false;
        Ok(())
    }

    /// One recovery pass over all nodes.
    fn recover_kvs_pass(&mut self)
        requires
            old(self).inv(),
        ensures
            final(self).fixed_part() == old(self).fixed_part(),
            final(self).inv(),
            old(self).backed() ==> final(self).backed() && final(self).state()
                == model::recover_from(old(self).state(), old(self).rest().oldest, 0),
    {
        let mut sec_addr: u32 = self.oldest_addr;
        let mut traversed_len: u32 = 0;
        let ghost b = self.backed();
        let ghost geo = self.geo();
        let ghost goal = model::recover_from(self.state(), self.rest().oldest, 0);
        loop
            invariant_except_break
                self.inv(),
                self.fixed_part() == old(self).fixed_part(),
                geo == self.geo(),
                geo == old(self).geo(),
                b == old(self).backed(),
                b ==> self.backed(),
                db::is_sector(geo, sec_addr as int),
                traversed_len <= geo.max,
                goal == model::recover_from(old(self).state(), old(self).rest().oldest, 0),
                b ==> goal == model::recover_from(
                    self.state(),
                    sec_addr as int,
                    traversed_len as int,
                ),
            ensures
                self.inv(),
                self.fixed_part() == old(self).fixed_part(),
                b ==> self.backed() && goal == self.state(),
            decreases geo.max + geo.sec - traversed_len,
        {
            traversed_len = traversed_len + self.sec_size;
            let mut s: KvSecInfo = KvSecInfo::blank();
            if self.read_sector_info(sec_addr, &mut s, false).is_ok() && (s.store
                == SectorStoreStatus::Using || s.store == SectorStoreStatus::Full) {
                let mut kv: Kv = Kv::blank();
                kv.addr_start = s.addr + SECTOR_HDR_DATA_SIZE;
                let ghost sub = model::recover_in_sector(self.state(), s.info(), kv.node());
                loop
                    invariant_except_break
                        self.inv(),
                        self.fixed_part() == old(self).fixed_part(),
                        geo == self.geo(),
                        geo == old(self).geo(),
                        b == old(self).backed(),
                        b ==> self.backed(),
                        s.fits(geo),
                        s.addr == sec_addr,
                        s.addr + 16 <= kv.addr_start <= s.addr + geo.sec,
                        goal == model::recover_from(old(self).state(), old(self).rest().oldest, 0),
                        b && sub.1 ==> goal == sub.0,
                        b ==> sub == model::recover_in_sector(
                            self.state(),
                            s.info(),
                            kv.node(),
                        ),
                    ensures
                        self.inv(),
                        self.fixed_part() == old(self).fixed_part(),
                        b ==> self.backed() && sub == (self.state(), false),
                    decreases s.addr + geo.sec - kv.addr_start,
                {
                    let _ = self.read_kv(&mut kv);
                    if self.recover_one_kv(&kv) {
                        return;
                    }
                    let next: u32 = self.get_next_kv_addr(&s, &kv);
                    if next == FAILED_ADDR {
                        break;
                    }
                    kv.addr_start = next;
                }
            }
            let next: u32 = self.get_next_sector_addr(&s, traversed_len);
            if next == FAILED_ADDR {
                break;
            }
            sec_addr = next;
        }
    }

    /// Recover one node. Returns true to stop the pass.
    fn recover_one_kv(&mut self, kv: &Kv) -> (r: bool)
        requires
            old(self).inv(),
            kv.node().at <= old(self).geo().max,
            kv.node().len >= 24,
        ensures
            final(self).fixed_part() == old(self).fixed_part(),
            final(self).inv(),
            old(self).backed() ==> final(self).backed() && (final(self).state(), r)
                == model::recover_node(old(self).state(), kv.node()),
    {
        if kv.crc_is_ok && kv.status == KvStatus::PreDelete {
            self.move_kv(kv).is_err()
        } else if kv.status == KvStatus::PreWrite {
            let _ = write_status(
                &mut self.storage,
                kv.addr_start,
                KV_STATUS_NUM,
                KvStatus::ErrHdr.index(),
                true,
            );
            false
        } else {
            false
        }
    }

    /// Reformat the whole database and write the default KV set.
    pub fn set_default(&mut self) -> (r: Result<()>)
        requires
            old(self).inv(),
        ensures
            final(self).fixed_part() == old(self).fixed_part(),
            final(self).inv(),
            old(self).backed() ==> final(self).backed() && (final(self).state(), r)
                == model::set_defaults(old(self).state()),
    {
        let mut addr: u32 = 0;
        let ghost b = self.backed();
        let ghost geo = self.geo();
        let ghost goal = model::format_from(self.medium(), geo, 0);
        while addr < self.max_size
            invariant
                self.inv(),
                self.rest() == old(self).rest(),
                geo == self.geo(),
                b == old(self).backed(),
                b ==> self.backed(),
                addr <= geo.max + geo.sec,
                goal == model::format_from(old(self).medium(), geo, 0),
                b ==> goal == model::format_from(self.medium(), geo, addr as int),
            decreases geo.max + geo.sec - addr,
        {
            match self.format_sector(addr, SECTOR_NOT_COMBINED) {
                Err(e) => {
                    return Err(e);
                },
                Ok(_) => {},
            }
            addr = addr + self.sec_size;
        }
        let mut i: usize = 0;
        let ghost st1 = self.state();
        let ghost created = model::create_defaults(st1, 0);
        while i < self.default_kvs.len()
            invariant
                self.inv(),
                self.fixed_part() == old(self).fixed_part(),
                geo == self.geo(),
                b ==> self.backed(),
                i <= self.default_kvs@.len(),
                b ==> created == model::create_defaults(self.state(), i as int),
            decreases self.default_kvs@.len() - i,
        {
            let key: Vec<u8> = vstd::slice::slice_to_vec(self.default_kvs[i].0.as_slice());
            let value: Vec<u8> = vstd::slice::slice_to_vec(self.default_kvs[i].1.as_slice());
            assert(self.rest().defaults[i as int] == (key@, value@));
            let mut sector: KvSecInfo = KvSecInfo::blank();
            let ghost before = self.state();
            let _ = self.create_kv_blob(&mut sector, key.as_slice(), value.as_slice());
            assert(self.state().defaults == before.defaults);
            assert(self.rest().defaults.len() == self.default_kvs@.len());
            i = i + 1;
        }
        proof {
            db::lemma_geo(geo);
            vstd::arithmetic::div_mod::lemma_small_mod(0, geo.sec as nat);
        }
        self.oldest_addr = 0;
        Ok(())
    }
}

/// Iterator state for [`Kvdb::iterate`].
pub struct KvIterator {
    curr_kv: Kv,
    /// Number of KVs iterated so far.
    pub iterated_cnt: u32,
    /// Total node storage iterated.
    pub iterated_obj_bytes: usize,
    /// Total value bytes iterated.
    pub iterated_value_bytes: usize,
    sector_addr: u32,
    traversed_len: u32,
}

impl KvIterator {
    /// Where this iterator stands.
    pub closed spec fn cursor(&self) -> Cursor {
        Cursor {
            node: self.curr_kv.node(),
            sec: self.sector_addr as int,
            traversed: self.traversed_len as int,
        }
    }

    /// Whether this iterator is one of a database with geometry `geo` that can come past
    /// one more sector.
    pub open spec fn fits(&self, geo: Geo) -> bool {
        let c = self.cursor();
        &&& db::is_sector(geo, c.sec)
        &&& c.traversed + geo.sec <= u32::MAX
        &&& c.node.at == 0 || (c.node.len > 0 && c.node.at < FAILED_ADDR)
    }

    /// The counters of this iterator: KVs, node bytes and value bytes iterated.
    pub closed spec fn counters(&self) -> (int, int, int) {
        (
            self.iterated_cnt as int,
            self.iterated_obj_bytes as int,
            self.iterated_value_bytes as int,
        )
    }

    /// Number of KVs iterated so far.
    pub fn count(&self) -> (r: u32)
        ensures
            r == self.counters().0,
    {
        self.iterated_cnt
    }

    /// Total node storage iterated.
    pub fn obj_bytes(&self) -> (r: usize)
        ensures
            r == self.counters().1,
    {
        self.iterated_obj_bytes
    }

    /// Total value bytes iterated.
    pub fn value_bytes(&self) -> (r: usize)
        ensures
            r == self.counters().2,
    {
        self.iterated_value_bytes
    }

    /// The KV at the current iterator position (valid after [`Kvdb::iterate`]
    /// returns `true`).
    pub fn current(&self) -> (r: &Kv)
        ensures
            r.node() == self.cursor().node,
    {
        &self.curr_kv
    }
}

/// The names and values of the default KVs that a database is opened with.
pub open spec fn default_list(d: Option<&[DefaultKv]>) -> Seq<(Seq<u8>, Seq<u8>)> {
    match d {
        Some(kvs) => kvs@.map_values(|kv: DefaultKv| (kv.key@, kv.value@)),
        None => Seq::empty(),
    }
}

/// Copies of the default KVs that a database is opened with.
fn copy_defaults(default_kvs: Option<&[DefaultKv]>) -> (r: Vec<(Vec<u8>, Vec<u8>)>)
    ensures
        default_pairs(r@) == default_list(default_kvs),
{
    let mut out: Vec<(Vec<u8>, Vec<u8>)> = Vec::new();
    match default_kvs {
        Some(kvs) => {
            let mut i: usize = 0;
            while i < kvs.len()
                invariant
                    i <= kvs@.len(),
                    default_pairs(out@) == default_list(Some(kvs)).subrange(0, i as int),
                decreases kvs@.len() - i,
            {
                let key: Vec<u8> = vstd::slice::slice_to_vec(kvs[i].key);
                let value: Vec<u8> = vstd::slice::slice_to_vec(kvs[i].value);
                let ghost before = out@;
                let ghost list = default_list(Some(kvs));
                assert(list[i as int] == (key@, value@));
                out.push((key, value));
                assert(default_pairs(out@) =~= default_pairs(before).push((key@, value@)));
                assert(list.subrange(0, i + 1) =~= list.subrange(0, i as int).push(
                    list[i as int],
                ));
                i = i + 1;
            }
            assert(default_pairs(out@) =~= default_list(Some(kvs)));
        },
        None => {
            assert(default_pairs(out@) =~= Seq::<(Seq<u8>, Seq<u8>)>::empty());
        },
    }
    out
}

impl<S: Storage> Kvdb<S> {
    // --------------------------------------------------------------------- public API

    /// Open (initialising / recovering) a KV database on `storage`.
    ///
    /// `sec_size` is the sector size (a power of two) and `max_size` the total
    /// database size (a whole number of at least two sectors). `default_kvs` are
    /// written when the database is first formatted.
    pub fn new(
        storage: S,
        sec_size: u32,
        max_size: u32,
        default_kvs: Option<&[DefaultKv]>,
    ) -> (r: Result<Self>)
        requires
            db::geometry_ok(sec_size as int, max_size as int) ==> model::geo_ok(
                db::geo_of(sec_size, max_size),
            ),
            model::defaults_ok(default_list(default_kvs)),
        ensures
            opened(r, storage, sec_size, max_size, default_list(default_kvs), false),
    {
        Self::with_options(storage, sec_size, max_size, default_kvs, false)
    }

    /// Like [`Kvdb::new`] but allows requesting non-formattable mode: when the
    /// stored data fails integrity checks, initialization fails instead of
    /// reformatting.
    pub fn with_options(
        storage: S,
        sec_size: u32,
        max_size: u32,
        default_kvs: Option<&[DefaultKv]>,
        not_formatable: bool,
    ) -> (r: Result<Self>)
        requires
            db::geometry_ok(sec_size as int, max_size as int) ==> model::geo_ok(
                db::geo_of(sec_size, max_size),
            ),
            model::defaults_ok(default_list(default_kvs)),
        ensures
            opened(r, storage, sec_size, max_size, default_list(default_kvs), not_formatable),
    {
        match validate_geometry(sec_size, max_size) {
            Err(e) => {
                return Err(e);
            },
            Ok(_) => {},
        }
        let mut db: Kvdb<S> = Kvdb {
            storage,
            sec_size,
            max_size,
            oldest_addr: 0,
            init_ok: false,
            not_formatable,
            gc_request: false,
            in_recovery_check: false,
            default_kvs: copy_defaults(default_kvs),
        };
        db.find_oldest_addr();
        match db.kv_load() {
            Err(e) => {
                return Err(e);
            },
            Ok(_) => {},
        }
        db.init_ok = true;
        Ok(db)
    }

    /// Consume the database and return the underlying storage.
    pub fn into_storage(self) -> (r: S)
        ensures
            r == self.held_storage(),
            r.medium() == self.medium(),
            self.backed() ==> flash::backs(&r),
    {
        self.storage
    }

    /// Borrow the underlying storage.
    pub fn storage(&self) -> (r: &S)
        ensures
            *r == self.held_storage(),
            (*r).medium() == self.medium(),
            self.backed() ==> flash::backs(r),
    {
        &self.storage
    }

    /// The oldest sector start address (the tail of garbage collection).
    pub fn oldest_addr(&self) -> (r: u32)
        ensures
            r == self.rest().oldest,
    {
        self.oldest_addr
    }

    /// Set (create or replace) a KV with a blob value.
    pub fn set(&mut self, key: &[u8], value: &[u8]) -> (r: Result<()>)
        requires
            old(self).inv(),
            model::record_len(key@, value@) <= u32::MAX,
        ensures
            final(self).fixed_part() == old(self).fixed_part(),
            final(self).inv(),
            !old(self).rest().ready ==> r == Err::<(), _>(FdbError::InitFailed) && *final(self)
                == *old(self),
            old(self).rest().ready && old(self).backed() ==> final(self).backed() && (
            final(self).state(), r) == model::set_value(old(self).state(), key@, value@),
    {
        if !self.init_ok {
            return Err(FdbError::InitFailed);
        }
        self.set_kv(key, value)
    }

    /// Set a KV with a string value.
    pub fn set_str(&mut self, key: &[u8], value: &str) -> (r: Result<()>)
        requires
            old(self).inv(),
            model::record_len(key@, utf8::encode_utf8(value@)) <= u32::MAX,
        ensures
            final(self).fixed_part() == old(self).fixed_part(),
            final(self).inv(),
            !old(self).rest().ready ==> r == Err::<(), _>(FdbError::InitFailed) && *final(self)
                == *old(self),
            old(self).rest().ready && old(self).backed() ==> final(self).backed() && (
            final(self).state(), r) == model::set_value(
                old(self).state(),
                key@,
                utf8::encode_utf8(value@),
            ),
    {
        self.set(key, value.as_bytes())
    }

    /// Delete a KV by name.
    pub fn del(&mut self, key: &[u8]) -> (r: Result<()>)
        requires
            old(self).inv(),
        ensures
            final(self).rest() == old(self).rest(),
            !old(self).rest().ready ==> r == Err::<(), _>(FdbError::InitFailed) && *final(self)
                == *old(self),
            old(self).rest().ready && old(self).backed() ==> final(self).backed() && (
            final(self).state(), r) == model::delete(old(self).state(), key@),
    {
        if !self.init_ok {
            return Err(FdbError::InitFailed);
        }
        self.del_kv(Some(key), None, true)
    }

    /// Read a KV value into `buf`, returning the number of bytes copied
    /// (`min(buf.len(), value_len)`), or `None` if the KV does not exist.
    pub fn get(&mut self, key: &[u8], buf: &mut [u8]) -> (r: Option<usize>)
        requires
            old(self).inv(),
        ensures
            final(self).rest() == old(self).rest(),
            final(buf)@.len() == old(buf)@.len(),
            !old(self).rest().ready ==> r is None && *final(self) == *old(self) && final(buf)@
                == old(buf)@,
            old(self).rest().ready && old(self).backed() ==> {
                let (m1, n, found) = model::find(old(self).state(), key@);
                let k = model::least(old(buf)@.len() as int, n.value_len);
                &&& final(self).backed()
                &&& final(self).medium() == m1
                &&& found ==> r == Some(k as usize) && final(buf)@ == model::fetch_head(
                    m1,
                    n.value_at,
                    old(buf)@,
                    k,
                )
                &&& !found ==> r is None && final(buf)@ == old(buf)@
            },
            old(self).rest().ready && old(self).backed() ==> forall|d: Map<int, Sect>|
                #![trigger laws::fair(old(self).state(), d)]
                laws::fair(old(self).state(), d) ==> {
                    &&& r is Some <==> exists|v: Seq<u8>| #[trigger]
                        gc::has_live(old(self).state().geo, d, key@, v)
                    &&& forall|v: Seq<u8>| #[trigger]
                        gc::has_live(old(self).state().geo, d, key@, v) ==> {
                            &&& r == Some(if v.len() <= old(buf)@.len() {
                                v.len() as usize
                            } else {
                                old(buf)@.len() as usize
                            })
                            &&& forall|i: int|
                                0 <= i < old(buf)@.len() && i < v.len() ==> #[trigger] final(buf)@[i]
                                    == v[i]
                            &&& forall|i: int|
                                v.len() <= i < old(buf)@.len() ==> #[trigger] final(buf)@[i]
                                    == old(buf)@[i]
                        }
                },
    {
        proof {
            reveal(model::find);
        }
        if !self.init_ok {
            return None;
        }
        let mut kv: Kv = Kv::blank();
        let r: Option<usize> = if self.find_kv(key, &mut kv) {
            let read_len: usize = if buf.len() <= kv.value_len as usize {
                buf.len()
            } else {
                kv.value_len as usize
            };
            {
                let (head, _tail) = buf.split_at_mut(read_len);
                let _ = self.storage.read(kv.addr_value, head);
            }
            Some(read_len)
        } else {
            None
        };
        proof {
            if old(self).backed() {
                let st = old(self).state();
                let (m1, n, found) = model::find(st, key@);
                let k = model::least(old(buf)@.len() as int, n.value_len);
                assert(found ==> buf@ == model::fetch_head(m1, n.value_at, old(buf)@, k));
                assert forall|d: Map<int, Sect>| #[trigger] laws::fair(st, d) implies {
                    &&& r is Some <==> exists|v: Seq<u8>| #[trigger]
                        gc::has_live(st.geo, d, key@, v)
                    &&& forall|v: Seq<u8>| #[trigger]
                        gc::has_live(st.geo, d, key@, v) ==> {
                            &&& r == Some(if v.len() <= old(buf)@.len() {
                                v.len() as usize
                            } else {
                                old(buf)@.len() as usize
                            })
                            &&& forall|i: int|
                                0 <= i < old(buf)@.len() && i < v.len() ==> #[trigger] buf@[i] == v[i]
                            &&& forall|i: int|
                                v.len() <= i < old(buf)@.len() ==> #[trigger] buf@[i]
                                    == old(buf)@[i]
                        }
                } by {
                    read::getting_copies_the_live_value(st, d, key@, old(buf)@);
                }
            }
        }
        r
    }

    /// Read the full value of a KV into a freshly allocated `Vec`.
    pub fn get_vec(&mut self, key: &[u8]) -> (r: Option<Vec<u8>>)
        requires
            old(self).inv(),
        ensures
            final(self).rest() == old(self).rest(),
            !old(self).rest().ready ==> r is None && *final(self) == *old(self),
            old(self).rest().ready && old(self).backed() ==> {
                &&& final(self).backed()
                &&& final(self).medium() == model::find(old(self).state(), key@).0
                &&& value_opt(r) == model::lookup(old(self).state(), key@)
            },
    {
        proof {
            reveal(model::find);
        }
        if !self.init_ok {
            return None;
        }
        let mut kv: Kv = Kv::blank();
        if self.find_kv(key, &mut kv) {
            Some(self.whole_value(&kv))
        } else {
            None
        }
    }

    /// Read the full value of a KV object; what cannot be read stays zero.
    fn whole_value(&mut self, kv: &Kv) -> (v: Vec<u8>)
        ensures
            final(self).rest() == old(self).rest(),
            v@.len() == kv.node().value_len,
            old(self).backed() ==> {
                &&& final(self).backed()
                &&& final(self).medium() == old(self).medium()
                &&& v@ == model::value_of(old(self).medium(), kv.node())
            },
    {
        let mut v: Vec<u8> = vec![0u8; kv.value_len as usize];
        assert(v@ =~= flash::zeros(kv.value_len as int));
        let _ = self.storage.read(kv.addr_value, v.as_mut_slice());
        v
    }

    /// Look up a KV and return its metadata object.
    pub fn get_obj(&mut self, key: &[u8]) -> (r: Option<Kv>)
        requires
            old(self).inv(),
        ensures
            final(self).rest() == old(self).rest(),
            r matches Some(kv) ==> model::is_live(kv.node(), key@),
            !old(self).rest().ready ==> r is None && *final(self) == *old(self),
            old(self).rest().ready && old(self).backed() ==> {
                let (m1, n, found) = model::find(old(self).state(), key@);
                &&& final(self).backed()
                &&& final(self).medium() == m1
                &&& r is Some <==> found
                &&& r matches Some(kv) ==> kv.node() == n
            },
    {
        proof {
            reveal(model::find);
        }
        if !self.init_ok {
            return None;
        }
        let mut kv: Kv = Kv::blank();
        if self.find_kv(key, &mut kv) {
            Some(kv)
        } else {
            None
        }
    }

    /// Read a KV object's value into `buf`.
    pub fn read_value(&mut self, kv: &Kv, buf: &mut [u8]) -> (r: usize)
        ensures
            final(self).rest() == old(self).rest(),
            final(buf)@.len() == old(buf)@.len(),
            old(self).backed() ==> {
                let n = kv.node();
                let k = model::least(old(buf)@.len() as int, n.value_len);
                &&& final(self).backed()
                &&& final(self).medium() == old(self).medium()
                &&& final(buf)@ == model::fetch_head(
                    old(self).medium(),
                    n.value_at,
                    old(buf)@,
                    k,
                )
                &&& r == (if old(self).medium().holds(n.value_at, k) {
                    k
                } else {
                    0
                })
            },
            old(self).backed() ==> forall|d: Map<int, Sect>, key: Seq<u8>, v: Seq<u8>|
                #![trigger read::shows_live(old(self).geo(), d, kv.node(), key, v)]
                image::holds_image(old(self).medium(), old(self).geo(), d) && read::shows_live(
                    old(self).geo(),
                    d,
                    kv.node(),
                    key,
                    v,
                ) ==> {
                    &&& r == (if v.len() <= old(buf)@.len() {
                        v.len()
                    } else {
                        old(buf)@.len()
                    })
                    &&& forall|i: int|
                        0 <= i < old(buf)@.len() && i < v.len() ==> #[trigger] final(buf)@[i] == v[i]
                    &&& forall|i: int|
                        v.len() <= i < old(buf)@.len() ==> #[trigger] final(buf)@[i] == old(buf)@[i]
                },
    {
        let read_len: usize = if buf.len() <= kv.value_len as usize {
            buf.len()
        } else {
            kv.value_len as usize
        };
        let failed: bool;
        {
            let (head, _tail) = buf.split_at_mut(read_len);
            failed = self.storage.read(kv.addr_value, head).is_err();
        }
        proof {
            if old(self).backed() {
                let m = old(self).medium();
                let geo = old(self).geo();
                let n = kv.node();
                let k = model::least(old(buf)@.len() as int, n.value_len);
                assert(buf@ == model::fetch_head(m, n.value_at, old(buf)@, k));
                assert forall|d: Map<int, Sect>, key: Seq<u8>, v: Seq<u8>|
                    #![trigger read::shows_live(geo, d, n, key, v)]
                    image::holds_image(m, geo, d) && read::shows_live(geo, d, n, key, v) implies {
                    &&& !failed && read_len == (if v.len() <= old(buf)@.len() {
                        v.len()
                    } else {
                        old(buf)@.len()
                    })
                    &&& forall|i: int|
                        0 <= i < old(buf)@.len() && i < v.len() ==> #[trigger] buf@[i] == v[i]
                    &&& forall|i: int|
                        v.len() <= i < old(buf)@.len() ==> #[trigger] buf@[i] == old(buf)@[i]
                } by {
                    read::reading_an_object_copies_the_value(m, geo, d, n, key, v, old(buf)@);
                }
            }
        }
        if failed {
            return 0;
        }
        read_len
    }

    /// Get a string KV: returns the value only if it is a printable string that fits in
    /// the string buffer.
    pub fn get_str(&mut self, key: &[u8]) -> (r: Option<String>)
        requires
            old(self).inv(),
        ensures
            final(self).rest() == old(self).rest(),
            !old(self).rest().ready ==> r is None && *final(self) == *old(self),
            old(self).rest().ready && old(self).backed() ==> {
                let (m1, n, found) = model::find(old(self).state(), key@);
                let value = m1.fetch(n.value_at, flash::zeros(n.value_len));
                &&& final(self).backed()
                &&& final(self).medium() == m1
                &&& r is Some <==> found && n.value_len <= STR_KV_VALUE_MAX_SIZE
                    && text::all_printable(value)
                &&& r matches Some(s) ==> s@ == text::ascii_text(value)
            },
            old(self).rest().ready && old(self).backed() ==> forall|d: Map<int, Sect>, v: Seq<u8>|
                #![trigger laws::fair(old(self).state(), d), gc::has_live(old(self).state().geo, d, key@, v)]
                laws::fair(old(self).state(), d) && gc::has_live(old(self).state().geo, d, key@, v)
                    ==> {
                    &&& r is Some <==> v.len() <= 128 && forall|i: int|
                        0 <= i < v.len() ==> 0x20 <= #[trigger] v[i] <= 0x7E
                    &&& r matches Some(s) ==> s@.len() == v.len() && forall|i: int|
                        0 <= i < v.len() ==> #[trigger] s@[i] as int == v[i] as int
                },
    {
        proof {
            let st = old(self).state();
            assert forall|d: Map<int, Sect>, v: Seq<u8>|
                #![trigger laws::fair(st, d), gc::has_live(st.geo, d, key@, v)]
                laws::fair(st, d) && gc::has_live(st.geo, d, key@, v) implies {
                let (m1, n, found) = model::find(st, key@);
                let value = m1.fetch(n.value_at, flash::zeros(n.value_len));
                let text = text::ascii_text(value);
                &&& (found && n.value_len <= STR_KV_VALUE_MAX_SIZE && text::all_printable(value)) <==> (
                v.len() <= 128 && forall|i: int| 0 <= i < v.len() ==> 0x20 <= #[trigger] v[i] <= 0x7E)
                &&& text.len() == v.len()
                &&& forall|i: int| 0 <= i < v.len() ==> #[trigger] text[i] as int == v[i] as int
            } by {
                read::text_is_got_where_every_byte_is_printable(st, d, key@);
            }
            reveal(model::find);
        }
        if !self.init_ok {
            return None;
        }
        let mut kv: Kv = Kv::blank();
        if !self.find_kv(key, &mut kv) {
            return None;
        }
        if kv.value_len as usize > STR_KV_VALUE_MAX_SIZE {
            return None;
        }
        let read: usize = kv.value_len as usize;
        let mut buf: Vec<u8> = vec![0u8; read];
        assert(buf@ =~= flash::zeros(read as int));
        let _ = self.storage.read(kv.addr_value, buf.as_mut_slice());
        if is_str(buf.as_slice()) {
            proof {
                text::printable_is_utf8(buf@);
            }
            Some(text_of(buf.as_slice()))
        } else {
            None
        }
    }

    /// Integrity check.
    pub fn check(&mut self) -> (r: Result<()>)
        requires
            old(self).inv(),
        ensures
            final(self).rest() == old(self).rest(),
            !old(self).rest().ready ==> r == Err::<(), _>(FdbError::InitFailed) && *final(self)
                == *old(self),
            old(self).rest().ready && old(self).backed() ==> {
                &&& final(self).backed()
                &&& (final(self).medium(), r) == model::check_from(
                    old(self).medium(),
                    old(self).geo(),
                    old(self).rest().oldest,
                    0,
                )
            },
    {
        if !self.init_ok {
            return Err(FdbError::InitFailed);
        }
        let mut sec_addr: u32 = self.oldest_addr;
        let mut traversed_len: u32 = 0;
        let ghost b = self.backed();
        let ghost geo = self.geo();
        let ghost goal = model::check_from(self.medium(), geo, self.rest().oldest, 0);
        loop
            invariant
                self.inv(),
                self.rest() == old(self).rest(),
                self.rest().ready,
                geo == self.geo(),
                geo == old(self).geo(),
                b == old(self).backed(),
                b ==> self.backed(),
                db::is_sector(geo, sec_addr as int),
                traversed_len <= geo.max,
                goal == model::check_from(old(self).medium(), geo, old(self).rest().oldest, 0),
                b ==> goal == model::check_from(
                    self.medium(),
                    geo,
                    sec_addr as int,
                    traversed_len as int,
                ),
            decreases geo.max + geo.sec - traversed_len,
        {
            let ghost m0 = self.medium();
            traversed_len = traversed_len + self.sec_size;
            let mut sector: KvSecInfo = KvSecInfo::blank();
            if self.read_sector_info(sec_addr, &mut sector, false).is_err() {
                return Err(FdbError::InitFailed);
            }
            if sector.store == SectorStoreStatus::Using || sector.store == SectorStoreStatus::Full {
                let mut kv: Kv = Kv::blank();
                kv.addr_start = sector.addr + SECTOR_HDR_DATA_SIZE;
                let ghost sub = model::check_in_sector(m0, geo, sector.info(), kv.node());
                loop
                    invariant_except_break
                        self.inv(),
                        self.rest() == old(self).rest(),
                        self.rest().ready,
                        geo == self.geo(),
                        geo == old(self).geo(),
                        b == old(self).backed(),
                        b ==> self.backed(),
                        sector.fits(geo),
                        sector.addr == sec_addr,
                        sector.addr + 16 <= kv.addr_start <= sector.addr + geo.sec,
                        goal == model::check_from(
                            old(self).medium(),
                            geo,
                            old(self).rest().oldest,
                            0,
                        ),
                        b && sub.1 is Err ==> goal == sub,
                        b ==> sub == model::check_in_sector(
                            self.medium(),
                            geo,
                            sector.info(),
                            kv.node(),
                        ),
                    ensures
                        self.inv(),
                        self.rest() == old(self).rest(),
                        b ==> self.backed() && sub == (self.medium(), Ok::<(), FdbError>(())),
                    decreases sector.addr + geo.sec - kv.addr_start,
                {
                    let rr: Result<()> = self.read_kv(&mut kv);
                    let next: u32 = self.get_next_kv_addr(&sector, &kv);
                    match rr {
                        Err(e) => {
                            return Err(e);
                        },
                        Ok(_) => {},
                    }
                    if next == FAILED_ADDR {
                        break;
                    }
                    kv.addr_start = next;
                }
            }
            let next: u32 = self.get_next_sector_addr(&sector, traversed_len);
            if next == FAILED_ADDR {
                return Ok(());
            }
            sec_addr = next;
        }
    }

    /// Create an iterator over all live KVs.
    pub fn iterator(&self) -> (r: KvIterator)
        requires
            self.inv(),
        ensures
            r.cursor() == model::first_cursor(self.rest().oldest),
            r.counters() == (0int, 0int, 0int),
            r.fits(self.geo()),
    {
        let mut kv: Kv = Kv::blank();
        kv.addr_start = 0;
        KvIterator {
            curr_kv: kv,
            iterated_cnt: 0,
            iterated_obj_bytes: 0,
            iterated_value_bytes: 0,
            sector_addr: self.oldest_addr,
            traversed_len: 0,
        }
    }

    /// Advance the iterator. Returns true while a KV is available at
    /// [`KvIterator::current`]. A counter that would grow too large stays at its maximum.
    pub fn iterate(&mut self, it: &mut KvIterator) -> (r: bool)
        requires
            old(self).inv(),
            old(it).fits(old(self).geo()),
        ensures
            final(self).rest() == old(self).rest(),
            final(it).cursor().traversed + final(self).geo().sec <= u32::MAX ==> final(it).fits(
                final(self).geo(),
            ),
            r ==> {
                let n = final(it).cursor().node;
                &&& final(it).fits(final(self).geo())
                &&& n.crc_ok
                &&& n.status == KvStatus::Write
                &&& final(it).counters() == model::counted(old(it).counters(), n)
            },
            !r ==> final(it).counters() == old(it).counters(),
            old(self).backed() ==> {
                &&& final(self).backed()
                &&& (final(self).medium(), final(it).cursor(), r) == model::seek(
                    old(self).medium(),
                    old(self).geo(),
                    old(it).cursor(),
                )
            },
    {
        if self.seek_live(it) {
            it.iterated_cnt = it.iterated_cnt.saturating_add(1);
            it.iterated_obj_bytes = it.iterated_obj_bytes.saturating_add(it.curr_kv.len as usize);
            it.iterated_value_bytes = it.iterated_value_bytes.saturating_add(
                it.curr_kv.value_len as usize,
            );
            true
        } else {
            false
        }
    }

    /// Advance the iterator to the next live KV, without counting it.
    fn seek_live(&mut self, it: &mut KvIterator) -> (r: bool)
        requires
            old(self).inv(),
            old(it).fits(old(self).geo()),
        ensures
            final(self).rest() == old(self).rest(),
            final(it).counters() == old(it).counters(),
            final(it).cursor().traversed + old(self).geo().sec <= u32::MAX ==> final(it).fits(
                old(self).geo(),
            ),
            r ==> {
                let n = final(it).cursor().node;
                &&& final(it).fits(old(self).geo())
                &&& model::advanced(old(self).geo(), old(it).cursor(), final(it).cursor())
                &&& n.crc_ok
                &&& n.status == KvStatus::Write
                &&& n.len <= 24 || n.len <= old(self).geo().max
            },
            old(self).backed() ==> {
                &&& final(self).backed()
                &&& (final(self).medium(), final(it).cursor(), r) == model::seek(
                    old(self).medium(),
                    old(self).geo(),
                    old(it).cursor(),
                )
            },
    {
        let mut sector: KvSecInfo = KvSecInfo::blank();
        let ghost b = self.backed();
        let ghost geo = self.geo();
        let ghost c0 = it.cursor();
        let ghost goal = model::seek(self.medium(), geo, c0);
        loop
            invariant
                self.inv(),
                self.rest() == old(self).rest(),
                geo == self.geo(),
                geo == old(self).geo(),
                b == old(self).backed(),
                b ==> self.backed(),
                it.fits(geo),
                c0 == old(it).cursor(),
                it.cursor() == c0 || (c0.traversed < it.cursor().traversed <= geo.max
                    && it.cursor().node.at == 0),
                it.counters() == old(it).counters(),
                goal == model::seek(old(self).medium(), geo, c0),
                b ==> goal == model::seek(self.medium(), geo, it.cursor()),
            decreases geo.max + geo.sec - it.traversed_len,
        {
            let ghost m0 = self.medium();
            let ghost c1 = it.cursor();
            if self.read_sector_info(it.sector_addr, &mut sector, false).is_ok() && (sector.store
                == SectorStoreStatus::Using || sector.store == SectorStoreStatus::Full) {
                let start: u32 = if it.curr_kv.addr_start == 0 {
                    sector.addr + SECTOR_HDR_DATA_SIZE
                } else {
                    self.get_next_kv_addr(&sector, &it.curr_kv)
                };
                if start != FAILED_ADDR {
                    it.curr_kv.addr_start = start;
                    let ghost sub = model::live_in_sector(
                        m0,
                        geo,
                        sector.info(),
                        it.cursor().node,
                    );
                    loop
                        invariant_except_break
                            self.inv(),
                            self.rest() == old(self).rest(),
                            geo == self.geo(),
                            geo == old(self).geo(),
                            b == old(self).backed(),
                            b ==> self.backed(),
                            sector.fits(geo),
                            sector.addr == it.sector_addr,
                            db::is_sector(geo, it.sector_addr as int),
                            it.sector_addr == c1.sec,
                            it.traversed_len == c1.traversed,
                            it.traversed_len + geo.sec <= u32::MAX,
                            c1.node.at < it.curr_kv.addr_start <= sector.addr + geo.sec,
                            c0 == old(it).cursor(),
                            c1 == c0 || (c0.traversed < c1.traversed <= geo.max && c1.node.at
                                == 0),
                            it.counters() == old(it).counters(),
                            goal == model::seek(old(self).medium(), geo, c0),
                            b && sub.2 ==> goal == (
                                sub.0,
                                (Cursor { node: sub.1, ..c1 }),
                                true,
                            ),
                            b ==> sub == model::live_in_sector(
                                self.medium(),
                                geo,
                                sector.info(),
                                it.cursor().node,
                            ),
                        ensures
                            self.inv(),
                            self.rest() == old(self).rest(),
                            it.sector_addr == c1.sec,
                            it.traversed_len == c1.traversed,
                            it.counters() == old(it).counters(),
                            b ==> self.backed() && sub == (
                                self.medium(),
                                it.cursor().node,
                                false,
                            ),
                        decreases sector.addr + geo.sec - it.curr_kv.addr_start,
                    {
                        let _ = self.read_kv(&mut it.curr_kv);
                        if it.curr_kv.status == KvStatus::Write && it.curr_kv.crc_is_ok {
                            return true;
                        }
                        let next: u32 = self.get_next_kv_addr(&sector, &it.curr_kv);
                        if next == FAILED_ADDR {
                            break;
                        }
                        it.curr_kv.addr_start = next;
                    }
                }
            }
            it.curr_kv.addr_start = 0;
            it.traversed_len = it.traversed_len + self.sec_size;
            let nsec: u32 = self.get_next_sector_addr(&sector, it.traversed_len);
            if nsec == FAILED_ADDR {
                return false;
            }
            it.sector_addr = nsec;
        }
    }

    /// Collect all live KVs into a `Vec`.
    pub fn iter_collect(&mut self) -> (r: Vec<Kv>)
        requires
            old(self).inv(),
        ensures
            final(self).rest() == old(self).rest(),
            forall|i: int| 0 <= i < r@.len() ==> (#[trigger] r@[i]).node().crc_ok,
            old(self).backed() ==> {
                &&& final(self).backed()
                &&& (final(self).medium(), nodes_of(r@)) == model::live_nodes(old(self).state())
            },
    {
        let mut out: Vec<Kv> = Vec::new();
        let mut it: KvIterator = self.iterator();
        let ghost b = self.backed();
        let ghost geo = self.geo();
        let ghost goal = model::live_nodes(self.state());
        assert(nodes_of(out@) =~= Seq::empty());
        proof {
            let rest = model::gather(self.medium(), geo, it.cursor());
            assert(goal.1 =~= Seq::<Node>::empty() + rest.1);
        }
        loop
            invariant
                self.inv(),
                self.rest() == old(self).rest(),
                geo == self.geo(),
                geo == old(self).geo(),
                b == old(self).backed(),
                b ==> self.backed(),
                it.fits(geo),
                forall|i: int| 0 <= i < out@.len() ==> (#[trigger] out@[i]).node().crc_ok,
                goal == model::live_nodes(old(self).state()),
                b ==> {
                    let rest = model::gather(self.medium(), geo, it.cursor());
                    goal == (rest.0, nodes_of(out@) + rest.1)
                },
            decreases
                    geo.max - it.cursor().traversed,
                    it.cursor().sec + geo.sec - it.cursor().node.at,
        {
            let ghost c0 = it.cursor();
            let ghost m0 = self.medium();
            if !self.seek_live(&mut it) {
                assert(b ==> goal.1 =~= nodes_of(out@));
                return out;
            }
            let ghost before = out@;
            out.push(*it.current());
            assert(nodes_of(out@) =~= nodes_of(before).push(it.cursor().node));
            assert(b ==> {
                let rest = model::gather(self.medium(), geo, it.cursor());
                nodes_of(before) + (seq![it.cursor().node] + rest.1) =~= nodes_of(out@) + rest.1
            });
        }
    }

    /// Render all live string KVs as `name=value` lines.
    pub fn dump(&mut self) -> (r: String)
        requires
            old(self).inv(),
        ensures
            final(self).rest() == old(self).rest(),
            old(self).backed() ==> {
                let (m1, nodes) = model::live_nodes(old(self).state());
                &&& final(self).backed()
                &&& final(self).medium() == m1
                &&& r@ == rendered_nodes(m1, nodes)
            },
    {
        let kvs: Vec<Kv> = self.iter_collect();
        let mut out: String = String::new();
        let mut i: usize = 0;
        let ghost b = self.backed();
        let ghost m1 = self.medium();
        let ghost nodes = nodes_of(kvs@);
        assert(nodes.subrange(0, 0) =~= Seq::empty());
        while i < kvs.len()
            invariant
                i <= kvs@.len(),
                self.rest() == old(self).rest(),
                b ==> self.backed() && self.medium() == m1,
                nodes == nodes_of(kvs@),
                b ==> out@ == rendered_nodes(m1, nodes.subrange(0, i as int)),
            decreases kvs@.len() - i,
        {
            let kv: Kv = kvs[i];
            let nl: usize = if kv.name_len as usize <= KV_NAME_MAX {
                kv.name_len as usize
            } else {
                KV_NAME_MAX
            };
            let val: Vec<u8> = self.whole_value(&kv);
            push_line(
                &mut out,
                vstd::slice::slice_subrange(kv.name.as_slice(), 0, nl),
                val.as_slice(),
                kv.addr_value,
            );
            i = i + 1;
            proof {
                let now = nodes.subrange(0, i as int);
                assert(now.drop_last() =~= nodes.subrange(0, i - 1));
                assert(now.last() == kv.node());
            }
        }
        assert(nodes.subrange(0, i as int) =~= nodes);
        out
    }
}

} // verus!
