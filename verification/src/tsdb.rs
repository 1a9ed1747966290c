//! Time-series database.
//!
//! TSL stands for time series log; the database stores many of them, with 32-bit
//! timestamps and data of any size. Each sector keeps an array of fixed-size index
//! records growing up from the header, while the data grows down from the end of the
//! sector.
use vstd::prelude::*;

use crate::calls::{Call, Callback, Clock, Record};
use crate::codec::{i32_word, put_u32, rd_i32, rd_u32, u32_bytes};
use crate::db;
use crate::db::{validate_geometry, Geo};
use crate::def;
use crate::def::{
    wg_align, FdbTime, SectorStoreStatus, TslStatus, DATA_UNUSED, FAILED_ADDR,
    SECTOR_STORE_STATUS_NUM, TSL_STATUS_NUM,
};
use crate::error::{FdbError, Result};
use crate::flash;
use crate::flash::{write_align, write_status};
use crate::ring;
use crate::status::get_status;
use crate::storage;
use crate::storage::{Medium, Storage};
use crate::ts_image::Entry;
use crate::ts_laws as laws;
use crate::ts_model as model;
use crate::ts_model::{
    Log, Survey, TsSec, TsState, LOG_IDX_DATA_SIZE, LOG_IDX_TS_OFFSET, REMAIN_FLOOR,
    SECTOR_END0_IDX_OFFSET, SECTOR_END0_STATUS_OFFSET, SECTOR_END0_TIME_OFFSET,
    SECTOR_END1_IDX_OFFSET, SECTOR_END1_STATUS_OFFSET, SECTOR_END1_TIME_OFFSET,
    SECTOR_HDR_DATA_SIZE, SECTOR_MAGIC_OFFSET, SECTOR_MAGIC_WORD, SECTOR_START_TIME_OFFSET,
};

verus! {

/// Round `x` up to a multiple of `a`; 0 where it is not positive.
fn align_up(x: i64, a: i64) -> (r: i64)
    requires
        0 < a,
        x + a <= i64::MAX,
    ensures
        r == model::round_up(x as int, a as int),
        x > 0 ==> x <= r < x + a,
        x <= 0 ==> r == 0,
{
    if x <= 0 {
        0
    } else {
        let q: i64 = (x + a - 1) / a;
        proof {
            vstd::arithmetic::div_mod::lemma_fundamental_div_mod(x + a - 1, a as int);
            vstd::arithmetic::div_mod::lemma_mod_bound(x + a - 1, a as int);
            assert(q * a == a * q) by (nonlinear_arith);
        }
        q * a
    }
}

/// The low 32 bits of `x`.
fn low_word(x: i64) -> (r: u32)
    requires
        0 <= x <= 0x1_FFFF_FFFF,
    ensures
        r == model::address(x as int),
{
    if x <= 0xFFFF_FFFF {
        x as u32
    } else {
        (x - 0x1_0000_0000) as u32
    }
}

/// A time-series log node.
#[derive(Clone, Copy)]
pub struct Tsl {
    status: TslStatus,
    time: FdbTime,
    log_len: u32,
    addr_index: u32,
    addr_log: u32,
}

impl Tsl {
    /// What this object holds.
    pub closed spec fn log(&self) -> Log {
        Log {
            status: self.status,
            time: self.time as int,
            len: self.log_len as int,
            at: self.addr_index as int,
            data_at: self.addr_log as int,
        }
    }

    fn blank() -> (r: Self)
        ensures
            r.log() == model::blank_log(),
    {
        Tsl {
            status: TslStatus::Unused,
            time: 0,
            log_len: 0,
            addr_index: FAILED_ADDR,
            addr_log: FAILED_ADDR,
        }
    }

    /// The TSL timestamp.
    pub fn time(&self) -> (r: FdbTime)
        ensures
            r == self.log().time,
    {
        self.time
    }

    /// The stored blob length in bytes.
    pub fn log_len(&self) -> (r: usize)
        ensures
            r == self.log().len,
    {
        self.log_len as usize
    }

    /// The TSL status.
    pub fn status(&self) -> (r: TslStatus)
        ensures
            r == self.log().status,
    {
        self.status
    }

    /// The address of this TSL's blob data within the database.
    pub fn log_addr(&self) -> (r: u32)
        ensures
            r == self.log().data_at,
    {
        self.addr_log
    }

    /// The address of this TSL's index record within the database.
    pub fn index_addr(&self) -> (r: u32)
        ensures
            r == self.log().at,
    {
        self.addr_index
    }
}

/// Sector descriptor.
#[derive(Clone, Copy)]
pub struct TsdbSecInfo {
    check_ok: bool,
    status: SectorStoreStatus,
    addr: u32,
    start_time: FdbTime,
    end_time: FdbTime,
    end_idx: u32,
    end_info_stat: [TslStatus; 2],
    remain: i64,
    empty_idx: u32,
    empty_data: u32,
}

impl TsdbSecInfo {
    /// What this descriptor holds.
    pub closed spec fn info(&self) -> TsSec {
        TsSec {
            check_ok: self.check_ok,
            status: self.status,
            at: self.addr as int,
            start: self.start_time as int,
            end: self.end_time as int,
            end_idx: self.end_idx as int,
            end0: self.end_info_stat@[0],
            end1: self.end_info_stat@[1],
            remain: self.remain as int,
            empty_idx: self.empty_idx as int,
            empty_data: self.empty_data as int,
        }
    }

    fn blank() -> (r: Self)
        ensures
            r.info() == model::blank_sec(),
    {
        TsdbSecInfo {
            check_ok: false,
            status: SectorStoreStatus::Unused,
            addr: 0,
            start_time: 0,
            end_time: 0,
            end_idx: 0,
            end_info_stat: [TslStatus::Unused, TslStatus::Unused],
            remain: 0,
            empty_idx: 0,
            empty_data: 0,
        }
    }
}

/// The address that `r` stands for, if any.
pub open spec fn addr_opt(r: u32) -> Option<int> {
    if r == FAILED_ADDR {
        None
    } else {
        Some(r as int)
    }
}

/// The address of the record behind `pre_tsl` in `sector`, or `FAILED_ADDR`.
fn get_next_tsl_addr(sector: &TsdbSecInfo, pre_tsl: &Tsl) -> (r: u32)
    ensures
        addr_opt(r) == model::next_record(sector.info(), pre_tsl.log().at),
{
    if sector.status == SectorStoreStatus::Empty {
        return FAILED_ADDR;
    }
    let next: u32 = pre_tsl.addr_index.saturating_add(LOG_IDX_DATA_SIZE);
    if next <= sector.end_idx {
        next
    } else {
        FAILED_ADDR
    }
}

/// The address of the record before `pre_tsl` in `sector`, or `FAILED_ADDR`.
fn get_last_tsl_addr(sector: &TsdbSecInfo, pre_tsl: &Tsl) -> (r: u32)
    requires
        sector.info().at + 48 <= u32::MAX,
    ensures
        addr_opt(r) == model::last_record(sector.info(), pre_tsl.log().at),
{
    if sector.status == SectorStoreStatus::Empty {
        return FAILED_ADDR;
    }
    if pre_tsl.addr_index >= sector.addr + SECTOR_HDR_DATA_SIZE + LOG_IDX_DATA_SIZE {
        pre_tsl.addr_index - LOG_IDX_DATA_SIZE
    } else {
        FAILED_ADDR
    }
}

/// Read the index record at `tsl.addr_index`.
fn read_index<S: Storage>(storage: &mut S, max_len: usize, tsl: &mut Tsl)
    requires
        max_len <= u32::MAX,
    ensures
        final(tsl).log().at == old(tsl).log().at,
        (*old(storage)).regular() ==> {
            &&& (*final(storage)).regular()
            &&& (*final(storage)).medium() == (*old(storage)).medium()
            &&& final(tsl).log() == model::log_at(
                (*old(storage)).medium(),
                max_len as int,
                old(tsl).log().at,
            )
        },
{
    let mut idx: [u8; 16] = [0u8; 16];
    assert(idx@ =~= flash::zeros(16));
    proof {
        reveal(model::log_at);
    }
    let _ = storage.read(tsl.addr_index, &mut idx);
    tsl.status = TslStatus::from_index(
        get_status(vstd::slice::slice_subrange(idx.as_slice(), 0, 1), TSL_STATUS_NUM),
    );
    if tsl.status == TslStatus::PreWrite || tsl.status == TslStatus::Unused {
        tsl.log_len = max_len as u32;
        tsl.addr_log = DATA_UNUSED;
        tsl.time = 0;
    } else {
        tsl.time = rd_i32(idx.as_slice(), 4);
        tsl.log_len = rd_u32(idx.as_slice(), 8);
        tsl.addr_log = rd_u32(idx.as_slice(), 12);
    }
}

/// The address of the sector behind `pre_sec` in a database of these sizes, or
/// `FAILED_ADDR`.
fn next_sector_addr(sec_size: u32, max_size: u32, pre_sec: &TsdbSecInfo, traversed_len: u32) -> (r:
    u32)
    requires
        model::geo_ok(db::geo_of(sec_size, max_size)),
        db::is_sector(db::geo_of(sec_size, max_size), pre_sec.info().at),
    ensures
        addr_opt(r) == model::next_sector(
            db::geo_of(sec_size, max_size),
            pre_sec.info().at,
            traversed_len as int,
        ),
        r != FAILED_ADDR ==> db::is_sector(db::geo_of(sec_size, max_size), r as int)
            && traversed_len < max_size,
{
    proof {
        db::lemma_geo(db::geo_of(sec_size, max_size));
        model::lemma_neighbours(db::geo_of(sec_size, max_size), pre_sec.info().at, traversed_len as int);
    }
    if traversed_len <= max_size - sec_size {
        if pre_sec.addr + sec_size < max_size {
            pre_sec.addr + sec_size
        } else {
            0
        }
    } else {
        FAILED_ADDR
    }
}

/// Read the sector header at `addr` of a database of these sizes, and with `traversal` the
/// records of a sector in use for the room that is left.
fn read_sector<S: Storage>(
    storage: &mut S,
    sec_size: u32,
    max_size: u32,
    max_len: usize,
    addr: u32,
    sector: &mut TsdbSecInfo,
    traversal: bool,
) -> (r: Result<()>)
    requires
        model::geo_ok(db::geo_of(sec_size, max_size)),
        db::is_sector(db::geo_of(sec_size, max_size), addr as int),
        max_len <= u32::MAX,
    ensures
        final(sector).info().at == addr,
        final(sector).info().check_ok ==> model::cur_ok(
            db::geo_of(sec_size, max_size),
            final(sector).info(),
        ),
        !final(sector).info().check_ok ==> final(sector).info() == (TsSec {
            check_ok: false,
            at: addr as int,
            ..old(sector).info()
        }),
        !traversal ==> r == model::head_result(final(sector).info()),
        flash::backs(old(storage)) ==> {
            let geo = db::geo_of(sec_size, max_size);
            &&& flash::backs(final(storage))
            &&& (*final(storage)).medium() == (*old(storage)).medium()
            &&& !traversal ==> final(sector).info() == model::sector_head(
                (*old(storage)).medium(),
                geo,
                addr as int,
                old(sector).info(),
            )
            &&& traversal ==> (final(sector).info(), r) == model::sector_full(
                (*old(storage)).medium(),
                geo,
                max_len as int,
                addr as int,
                old(sector).info(),
            )
        },
{
    let ghost m0 = (*storage).medium();
    let ghost geo = db::geo_of(sec_size, max_size);
    let ghost b = flash::backs(storage);
    let ghost s0 = sector.info();
    proof {
        db::lemma_geo(geo);
    }
    let mut hdr: [u8; 32] = [0u8; 32];
    assert(hdr@ =~= flash::zeros(32));
    let _ = storage.read(addr, &mut hdr);
    sector.addr = addr;
    let magic: u32 = rd_u32(hdr.as_slice(), 1);
    if magic != SECTOR_MAGIC_WORD {
        sector.check_ok = false;
        return Err(FdbError::InitFailed);
    }
    sector.check_ok = true;
    sector.status = SectorStoreStatus::from_index(
        get_status(vstd::slice::slice_subrange(hdr.as_slice(), 0, 1), SECTOR_STORE_STATUS_NUM),
    );
    sector.start_time = rd_i32(hdr.as_slice(), 5);
    let end0: TslStatus = TslStatus::from_index(
        get_status(vstd::slice::slice_subrange(hdr.as_slice(), 17, 18), TSL_STATUS_NUM),
    );
    let end1: TslStatus = TslStatus::from_index(
        get_status(vstd::slice::slice_subrange(hdr.as_slice(), 26, 27), TSL_STATUS_NUM),
    );
    sector.end_info_stat = [end0, end1];
    if end0 == TslStatus::Write {
        sector.end_time = rd_i32(hdr.as_slice(), 9);
        sector.end_idx = rd_u32(hdr.as_slice(), 13);
    } else if end1 == TslStatus::Write {
        sector.end_time = rd_i32(hdr.as_slice(), 18);
        sector.end_idx = rd_u32(hdr.as_slice(), 22);
    }
    sector.empty_idx = sector.addr + SECTOR_HDR_DATA_SIZE;
    sector.empty_data = sector.addr + sec_size;
    sector.remain = (sector.empty_data - sector.empty_idx) as i64;
    assert(b ==> sector.info() == model::sector_head(m0, geo, addr as int, s0));
    let mut result: Result<()> = Ok(());
    if sector.status == SectorStoreStatus::Using && traversal {
        let mut tsl: Tsl = Tsl::blank();
        let ghost goal = model::tally(m0, max_len as int, sector.info());
        tsl.addr_index = sector.empty_idx;
        loop
            invariant_except_break
                max_len <= u32::MAX,
                b ==> flash::backs(storage) && (*storage).medium() == m0,
                sector.check_ok,
                sector.addr == addr,
                sector.addr + geo.sec + 16 <= u32::MAX,
                sector.status == SectorStoreStatus::Using,
                tsl.addr_index == sector.empty_idx,
                sector.addr + 32 <= sector.empty_idx,
                0 <= sector.remain <= geo.sec - 32,
                sector.empty_idx + sector.remain <= sector.addr + geo.sec,
                result == Ok::<(), FdbError>(()),
                b ==> goal == model::tally(m0, max_len as int, sector.info()),
            ensures
                b ==> flash::backs(storage) && (*storage).medium() == m0,
                sector.check_ok,
                sector.addr == addr,
                sector.addr + 32 <= sector.empty_idx,
                0 <= sector.remain <= geo.sec - 32,
                b ==> goal == (sector.info(), result),
            decreases sector.remain,
        {
            read_index(storage, max_len, &mut tsl);
            if tsl.status == TslStatus::Unused {
                break;
            }
            if tsl.status != TslStatus::PreWrite {
                sector.end_time = tsl.time;
            }
            sector.end_idx = tsl.addr_index;
            sector.empty_idx = sector.empty_idx.saturating_add(LOG_IDX_DATA_SIZE);
            sector.empty_data = sector.empty_data.saturating_sub(wg_align(tsl.log_len));
            tsl.addr_index = sector.empty_idx;
            let cost: i64 = LOG_IDX_DATA_SIZE as i64 + wg_align(tsl.log_len) as i64;
            if sector.remain > cost {
                sector.remain = sector.remain - cost;
            } else {
                sector.remain = 0;
                result = Err(FdbError::ReadErr);
                break;
            }
        }
    }
    result
}

/// Survey the sectors of a storage of these sizes for the one to go on with. Returns that
/// sector, how many sectors are empty, the last of them, and whether the survey failed. The
/// storage is left alone: a database that may not be formatted is refused for what this finds.
pub fn survey_sectors<S: Storage>(storage: &mut S, sec_size: u32, max_size: u32, max_len: usize) -> (r:
    (TsdbSecInfo, usize, u32, bool))
    requires
        model::geo_ok(db::geo_of(sec_size, max_size)),
        max_len < sec_size,
    ensures
        db::is_sector(db::geo_of(sec_size, max_size), r.2 as int),
        r.0.info().at == DATA_UNUSED || model::cur_ok(
            db::geo_of(sec_size, max_size),
            r.0.info(),
        ),
        r.0.info().at == DATA_UNUSED ==> r.0.info() == (TsSec {
            at: DATA_UNUSED as int,
            ..model::blank_sec()
        }),
        r.1 > 0 ==> r.0.info().at != DATA_UNUSED,
        flash::backs(old(storage)) ==> {
            &&& flash::backs(final(storage))
            &&& (*final(storage)).medium() == (*old(storage)).medium()
            &&& model::survey(
                (*old(storage)).medium(),
                db::geo_of(sec_size, max_size),
                max_len as int,
            ) == (Survey {
                cur: r.0.info(),
                empty: r.1 as int,
                empty_at: r.2 as int,
                failed: r.3,
            })
        },
{
    let mut cur: TsdbSecInfo = TsdbSecInfo::blank();
    cur.addr = DATA_UNUSED;
    let mut empty_num: usize = 0;
    let mut empty_addr: u32 = 0;
    let mut sec_addr: u32 = 0;
    let mut traversed_len: u32 = 0;
    let ghost b = flash::backs(storage);
    let ghost geo = db::geo_of(sec_size, max_size);
    let ghost m = (*storage).medium();
    let ghost goal = model::survey(m, geo, max_len as int);
    proof {
        db::lemma_geo(geo);
        vstd::arithmetic::div_mod::lemma_small_mod(0, geo.sec as nat);
    }
    loop
        invariant
            geo == db::geo_of(sec_size, max_size),
            model::geo_ok(geo),
            geo.max + geo.sec <= 0xFFFF_FFFF,
            max_len < geo.sec,
            b == flash::backs(old(storage)),
            m == (*old(storage)).medium(),
            b ==> flash::backs(storage) && (*storage).medium() == m,
            db::is_sector(geo, sec_addr as int),
            db::is_sector(geo, empty_addr as int),
            traversed_len <= geo.max,
            empty_num <= traversed_len,
            cur.info().at == DATA_UNUSED || model::cur_ok(geo, cur.info()),
            cur.info().at == DATA_UNUSED ==> cur.info() == (TsSec {
                at: DATA_UNUSED as int,
                ..model::blank_sec()
            }),
            empty_num > 0 ==> cur.info().at != DATA_UNUSED,
            goal == model::survey(m, geo, max_len as int),
            b ==> goal == model::survey_from(
                m,
                geo,
                max_len as int,
                sec_addr as int,
                traversed_len as int,
                (Survey {
                    cur: cur.info(),
                    empty: empty_num as int,
                    empty_at: empty_addr as int,
                    failed: false,
                }),
            ),
        decreases geo.max + geo.sec - traversed_len,
    {
        traversed_len = traversed_len + sec_size;
        let mut sector: TsdbSecInfo = TsdbSecInfo::blank();
        let _ = read_sector(storage, sec_size, max_size, max_len, sec_addr, &mut sector, true);
        if !sector.check_ok {
            return (cur, empty_num, empty_addr, true);
        } else if sector.status == SectorStoreStatus::Using {
            if cur.addr == DATA_UNUSED {
                cur = sector;
            } else {
                return (cur, empty_num, empty_addr, true);
            }
        } else if sector.status == SectorStoreStatus::Empty {
            empty_num = empty_num + 1;
            empty_addr = sector.addr;
            if empty_num == 1 && cur.addr == DATA_UNUSED {
                cur = sector;
            }
        }
        let next: u32 = next_sector_addr(sec_size, max_size, &sector, traversed_len);
        if next == FAILED_ADDR {
            return (cur, empty_num, empty_addr, false);
        }
        sec_addr = next;
    }
}

/// The direction of a walk.
#[derive(Clone, Copy, PartialEq, Eq, Structural)]
enum Dir {
    Fwd,
    Rev,
}

/// A time-series database backed by a [`Storage`]; `C` is its clock.
pub struct Tsdb<S: Storage, C: FnMut() -> FdbTime> {
    storage: S,
    sec_size: u32,
    max_size: u32,
    oldest_addr: u32,
    init_ok: bool,
    not_formatable: bool,
    get_time: Clock<C>,
    max_len: usize,
    rollover: bool,
    last_time: FdbTime,
    cur_sec: TsdbSecInfo,
    calls: Record,
}

impl<S: Storage, C: FnMut() -> FdbTime> Tsdb<S, C> {
    /// The storage of this database.
    pub closed spec fn held_storage(&self) -> S {
        self.storage
    }

    /// The clock of this database.
    pub closed spec fn clock(&self) -> Clock<C> {
        self.get_time
    }

    /// The calls of callbacks that this database made.
    pub closed spec fn calls(&self) -> Seq<Call> {
        self.calls.calls()
    }

    /// The medium of this database.
    pub open spec fn medium(&self) -> Medium {
        self.held_storage().medium()
    }

    /// Sector and database size.
    pub open spec fn geo(&self) -> Geo {
        self.rest().geo
    }

    /// The state of this database without its medium.
    pub closed spec fn rest(&self) -> TsState {
        TsState {
            m: storage::medium_of(Seq::empty()),
            geo: Geo { sec: self.sec_size as int, max: self.max_size as int },
            oldest: self.oldest_addr as int,
            ready: self.init_ok,
            fixed: self.not_formatable,
            max_len: self.max_len as int,
            rollover: self.rollover,
            last_time: self.last_time as int,
            cur: self.cur_sec.info(),
        }
    }

    /// What no operation on a database changes.
    pub open spec fn fixed_part(&self) -> TsState {
        TsState { oldest: 0, last_time: 0, cur: model::blank_sec(), ..self.rest() }
    }

    /// The state of this database.
    pub open spec fn state(&self) -> TsState {
        TsState { m: self.medium(), ..self.rest() }
    }

    /// Whether the storage is regular and lies within the 32-bit address space.
    pub open spec fn backed(&self) -> bool {
        flash::backs(&self.held_storage())
    }

    /// What holds of every database.
    pub open spec fn inv(&self) -> bool {
        model::state_ok(self.rest())
    }

    // -------------------------------------------------------------------------- reads

    /// Read the index record at `tsl.addr_index`.
    fn read_tsl(&mut self, tsl: &mut Tsl)
        requires
            old(self).rest().max_len <= u32::MAX,
        ensures
            final(self).rest() == old(self).rest(),
            final(self).clock() == old(self).clock(),
            final(tsl).log().at == old(tsl).log().at,
            old(self).backed() ==> {
                &&& final(self).backed()
                &&& final(self).medium() == old(self).medium()
                &&& final(tsl).log() == model::log_at(
                    old(self).medium(),
                    old(self).rest().max_len,
                    old(tsl).log().at,
                )
            },
    {
        read_index(&mut self.storage, self.max_len, tsl);
    }

    /// Read the sector header at `addr`, and with `traversal` the records of a sector in
    /// use for the room that is left.
    fn read_sector_info(&mut self, addr: u32, sector: &mut TsdbSecInfo, traversal: bool) -> (r:
        Result<()>)
        requires
            model::geo_ok(old(self).geo()),
            db::is_sector(old(self).geo(), addr as int),
            old(self).rest().max_len <= u32::MAX,
        ensures
            final(self).rest() == old(self).rest(),
            final(self).clock() == old(self).clock(),
            final(sector).info().at == addr,
            final(sector).info().check_ok ==> model::cur_ok(
                old(self).geo(),
                final(sector).info(),
            ),
            !final(sector).info().check_ok ==> final(sector).info() == (TsSec {
                check_ok: false,
                at: addr as int,
                ..old(sector).info()
            }),
            !traversal ==> r == model::head_result(final(sector).info()),
            old(self).backed() ==> {
                &&& final(self).backed()
                &&& final(self).medium() == old(self).medium()
                &&& !traversal ==> final(sector).info() == model::sector_head(
                    old(self).medium(),
                    old(self).geo(),
                    addr as int,
                    old(sector).info(),
                )
                &&& traversal ==> (final(sector).info(), r) == model::sector_full(
                    old(self).medium(),
                    old(self).geo(),
                    old(self).rest().max_len,
                    addr as int,
                    old(sector).info(),
                )
            },
    {
        read_sector(
            &mut self.storage,
            self.sec_size,
            self.max_size,
            self.max_len,
            addr,
            sector,
            traversal,
        )
    }

    /// The address of the sector behind `pre_sec`, or `FAILED_ADDR`.
    fn get_next_sector_addr(&self, pre_sec: &TsdbSecInfo, traversed_len: u32) -> (r: u32)
        requires
            model::geo_ok(self.geo()),
            db::is_sector(self.geo(), pre_sec.info().at),
        ensures
            addr_opt(r) == model::next_sector(
                self.geo(),
                pre_sec.info().at,
                traversed_len as int,
            ),
            r != FAILED_ADDR ==> db::is_sector(self.geo(), r as int) && traversed_len
                < self.geo().max,
    {
        next_sector_addr(self.sec_size, self.max_size, pre_sec, traversed_len)
    }

    /// The address of the sector before `pre_sec`, or `FAILED_ADDR`.
    fn get_last_sector_addr(&self, pre_sec: &TsdbSecInfo, traversed_len: u32) -> (r: u32)
        requires
            model::geo_ok(self.geo()),
            db::is_sector(self.geo(), pre_sec.info().at),
        ensures
            addr_opt(r) == model::last_sector(
                self.geo(),
                pre_sec.info().at,
                traversed_len as int,
            ),
            r != FAILED_ADDR ==> db::is_sector(self.geo(), r as int) && traversed_len
                < self.geo().max,
    {
        proof {
            db::lemma_geo(self.geo());
            model::lemma_neighbours(self.geo(), pre_sec.info().at, traversed_len as int);
        }
        if traversed_len <= self.max_size - self.sec_size {
            if pre_sec.addr >= self.sec_size {
                pre_sec.addr - self.sec_size
            } else {
                self.max_size - self.sec_size
            }
        } else {
            FAILED_ADDR
        }
    }
}

impl<S: Storage, C: FnMut() -> FdbTime> Tsdb<S, C> {
    // ------------------------------------------------------------------------- writes

    /// Erase the sector at `addr` and write a fresh header.
    fn format_sector(&mut self, addr: u32) -> (r: Result<()>)
        requires
            model::geo_ok(old(self).geo()),
            db::is_sector(old(self).geo(), addr as int),
        ensures
            final(self).rest() == old(self).rest(),
            final(self).clock() == old(self).clock(),
            old(self).backed() ==> final(self).backed() && (final(self).medium(), r)
                == model::format(old(self).medium(), old(self).geo(), addr as int),
    {
        match self.storage.erase(addr, self.sec_size) {
            Err(e) => {
                return Err(e);
            },
            Ok(_) => {},
        }
        match write_status(
            &mut self.storage,
            addr,
            SECTOR_STORE_STATUS_NUM,
            SectorStoreStatus::Empty.index(),
            true,
        ) {
            Err(e) => {
                return Err(e);
            },
            Ok(_) => {},
        }
        self.storage.write(addr + SECTOR_MAGIC_OFFSET, &u32_bytes(SECTOR_MAGIC_WORD), true)
    }

    /// Write a log to the free place of the current sector.
    fn write_tsl(&mut self, blob: &[u8], time: FdbTime) -> (r: Result<()>)
        requires
            blob@.len() <= u32::MAX,
        ensures
            final(self).rest() == old(self).rest(),
            final(self).clock() == old(self).clock(),
            old(self).backed() ==> final(self).backed() && (final(self).medium(), r)
                == model::write_log(
                old(self).medium(),
                old(self).rest().cur,
                blob@,
                time as int,
            ),
    {
        let idx_addr: u32 = self.cur_sec.empty_idx;
        let log_addr: u32 = self.cur_sec.empty_data.saturating_sub(wg_align(blob.len() as u32));
        let mut tail: [u8; 12] = [0xFFu8; 12];
        put_u32(&mut tail, 0, i32_word(time));
        put_u32(&mut tail, 4, blob.len() as u32);
        put_u32(&mut tail, 8, log_addr);
        assert(tail@ =~= model::record_tail(time as int, blob@.len() as int, log_addr as int));
        match write_status(
            &mut self.storage,
            idx_addr,
            TSL_STATUS_NUM,
            TslStatus::PreWrite.index(),
            false,
        ) {
            Err(e) => {
                return Err(e);
            },
            Ok(_) => {},
        }
        match self.storage.write(idx_addr.saturating_add(LOG_IDX_TS_OFFSET), &tail, false) {
            Err(e) => {
                return Err(e);
            },
            Ok(_) => {},
        }
        match write_align(&mut self.storage, log_addr, blob) {
            Err(e) => {
                return Err(e);
            },
            Ok(_) => {},
        }
        write_status(
            &mut self.storage,
            idx_addr,
            TSL_STATUS_NUM,
            TslStatus::Write.index(),
            true,
        )
    }

    /// Write end information of the sector at `addr`.
    fn write_end_info(
        &mut self,
        addr: u32,
        status_addr: u32,
        time_addr: u32,
        idx_addr: u32,
        end_time: FdbTime,
        end_idx: u32,
    ) -> (r: Result<()>)
        requires
            addr <= status_addr,
            addr <= time_addr,
            addr <= idx_addr,
        ensures
            final(self).rest() == old(self).rest(),
            final(self).clock() == old(self).clock(),
            old(self).backed() ==> final(self).backed() && (final(self).medium(), r)
                == model::put_end(
                old(self).medium(),
                addr as int,
                status_addr - addr,
                time_addr - addr,
                idx_addr - addr,
                end_time as int,
                end_idx as int,
            ),
    {
        match write_status(
            &mut self.storage,
            status_addr,
            TSL_STATUS_NUM,
            TslStatus::PreWrite.index(),
            false,
        ) {
            Err(e) => {
                return Err(e);
            },
            Ok(_) => {},
        }
        match self.storage.write(time_addr, &u32_bytes(i32_word(end_time)), false) {
            Err(e) => {
                return Err(e);
            },
            Ok(_) => {},
        }
        match self.storage.write(idx_addr, &u32_bytes(end_idx), false) {
            Err(e) => {
                return Err(e);
            },
            Ok(_) => {},
        }
        write_status(
            &mut self.storage,
            status_addr,
            TSL_STATUS_NUM,
            TslStatus::Write.index(),
            true,
        )
    }

    /// Close the current sector: write its end information and the status that says it
    /// is full.
    fn close_cur_sec(&mut self) -> (r: Result<()>)
        requires
            old(self).inv(),
            old(self).rest().cur.status == SectorStoreStatus::Using,
        ensures
            final(self).rest() == old(self).rest(),
            final(self).clock() == old(self).clock(),
            old(self).backed() ==> final(self).backed() && (final(self).medium(), r)
                == model::close_sector(
                old(self).medium(),
                old(self).rest().cur,
                old(self).rest().last_time,
            ),
    {
        let end_index_temp: u32 = self.cur_sec.empty_idx - LOG_IDX_DATA_SIZE;
        let cur_sec_addr: u32 = self.cur_sec.addr;
        let last_time: FdbTime = self.last_time;
        let mut written: Result<()> = Ok(());
        if self.cur_sec.end_info_stat[0] == TslStatus::Unused {
            written = self.write_end_info(
                cur_sec_addr,
                cur_sec_addr + SECTOR_END0_STATUS_OFFSET,
                cur_sec_addr + SECTOR_END0_TIME_OFFSET,
                cur_sec_addr + SECTOR_END0_IDX_OFFSET,
                last_time,
                end_index_temp,
            );
        } else if self.cur_sec.end_info_stat[1] == TslStatus::Unused {
            written = self.write_end_info(
                cur_sec_addr,
                cur_sec_addr + SECTOR_END1_STATUS_OFFSET,
                cur_sec_addr + SECTOR_END1_TIME_OFFSET,
                cur_sec_addr + SECTOR_END1_IDX_OFFSET,
                last_time,
                end_index_temp,
            );
        }
        match written {
            Err(e) => {
                return Err(e);
            },
            Ok(_) => {},
        }
        write_status(
            &mut self.storage,
            cur_sec_addr,
            SECTOR_STORE_STATUS_NUM,
            SectorStoreStatus::Full.index(),
            true,
        )
    }

    /// Go on to the sector at `new_sec_addr`, formatting it if it is not empty.
    fn enter_sector(&mut self, new_sec_addr: u32) -> (r: Result<()>)
        requires
            old(self).inv(),
            db::is_sector(old(self).geo(), new_sec_addr as int),
        ensures
            final(self).fixed_part() == old(self).fixed_part(),
            final(self).clock() == old(self).clock(),
            final(self).inv(),
            old(self).backed() ==> final(self).backed() && (final(self).state(), r)
                == model::enter_sector(old(self).state(), new_sec_addr as int),
    {
        proof {
            db::lemma_geo(self.geo());
            model::lemma_neighbours(self.geo(), new_sec_addr as int, 0);
        }
        let mut cs: TsdbSecInfo = TsdbSecInfo::blank();
        let _ = self.read_sector_info(new_sec_addr, &mut cs, false);
        self.cur_sec = cs;
        if self.cur_sec.status != SectorStoreStatus::Empty {
            if new_sec_addr + self.sec_size < self.max_size {
                self.oldest_addr = new_sec_addr + self.sec_size;
            } else {
                self.oldest_addr = 0;
            }
            match self.format_sector(new_sec_addr) {
                Err(e) => {
                    return Err(e);
                },
                Ok(_) => {},
            }
            let mut cs2: TsdbSecInfo = TsdbSecInfo::blank();
            let _ = self.read_sector_info(new_sec_addr, &mut cs2, false);
            self.cur_sec = cs2;
        }
        Ok(())
    }

    /// Close the current sector and go on to the next one.
    fn turn_page(&mut self) -> (r: Result<()>)
        requires
            old(self).inv(),
            old(self).rest().cur.status == SectorStoreStatus::Using,
        ensures
            final(self).fixed_part() == old(self).fixed_part(),
            final(self).clock() == old(self).clock(),
            final(self).inv(),
            old(self).backed() ==> final(self).backed() && (final(self).state(), r)
                == model::turn_page(old(self).state()),
    {
        let cur_sec_addr: u32 = self.cur_sec.addr;
        match self.close_cur_sec() {
            Err(e) => {
                return Err(e);
            },
            Ok(_) => {},
        }
        self.cur_sec.status = SectorStoreStatus::Full;
        proof {
            db::lemma_geo(self.geo());
            model::lemma_neighbours(self.geo(), cur_sec_addr as int, 0);
        }
        let new_sec_addr: u32 = if cur_sec_addr + self.sec_size < self.max_size {
            cur_sec_addr + self.sec_size
        } else if self.rollover {
            0
        } else {
            return Err(FdbError::SavedFull);
        };
        self.enter_sector(new_sec_addr)
    }

    /// Take an empty current sector into use.
    fn begin_cur_sec(&mut self, cur_time: FdbTime) -> (r: Result<()>)
        requires
            old(self).inv(),
        ensures
            final(self).fixed_part() == old(self).fixed_part(),
            final(self).clock() == old(self).clock(),
            final(self).inv(),
            old(self).backed() ==> final(self).backed() && (final(self).state(), r)
                == model::begin_sector(old(self).state(), cur_time as int),
    {
        if self.cur_sec.status == SectorStoreStatus::Empty {
            self.cur_sec.status = SectorStoreStatus::Using;
            self.cur_sec.start_time = cur_time;
            let addr: u32 = self.cur_sec.addr;
            match write_status(
                &mut self.storage,
                addr,
                SECTOR_STORE_STATUS_NUM,
                SectorStoreStatus::Using.index(),
                true,
            ) {
                Err(e) => {
                    return Err(e);
                },
                Ok(_) => {},
            }
            return self.storage.write(
                addr + SECTOR_START_TIME_OFFSET,
                &u32_bytes(i32_word(cur_time)),
                true,
            );
        }
        Ok(())
    }

    /// Make room in the current sector for a log.
    fn update_sec_status(&mut self, blob_size: u32, cur_time: FdbTime) -> (r: Result<()>)
        requires
            old(self).inv(),
        ensures
            final(self).fixed_part() == old(self).fixed_part(),
            final(self).clock() == old(self).clock(),
            final(self).inv(),
            old(self).backed() ==> final(self).backed() && (final(self).state(), r)
                == model::make_room(old(self).state(), blob_size as int, cur_time as int),
    {
        let cost: i64 = LOG_IDX_DATA_SIZE as i64 + wg_align(blob_size) as i64;
        if self.cur_sec.status == SectorStoreStatus::Using && self.cur_sec.remain < cost {
            match self.turn_page() {
                Err(e) => {
                    return Err(e);
                },
                Ok(_) => {},
            }
        } else if self.cur_sec.status == SectorStoreStatus::Full {
            return Err(FdbError::SavedFull);
        }
        self.begin_cur_sec(cur_time)
    }

    /// Append a log with the time `cur_time`.
    fn append_at(&mut self, blob: &[u8], cur_time: FdbTime) -> (r: Result<()>)
        requires
            old(self).inv(),
        ensures
            final(self).fixed_part() == old(self).fixed_part(),
            final(self).clock() == old(self).clock(),
            final(self).inv(),
            old(self).backed() ==> final(self).backed() && (final(self).state(), r)
                == model::append(old(self).state(), blob@, cur_time as int),
    {
        if blob.len() > self.max_len {
            return Err(FdbError::WriteErr);
        }
        if cur_time <= self.last_time {
            return Err(FdbError::WriteErr);
        }
        match self.update_sec_status(blob.len() as u32, cur_time) {
            Err(e) => {
                return Err(e);
            },
            Ok(_) => {},
        }
        match self.write_tsl(blob, cur_time) {
            Err(e) => {
                return Err(e);
            },
            Ok(_) => {},
        }
        let cost: i64 = LOG_IDX_DATA_SIZE as i64 + wg_align(blob.len() as u32) as i64;
        self.cur_sec.end_idx = self.cur_sec.empty_idx;
        self.cur_sec.end_time = cur_time;
        self.cur_sec.empty_idx = self.cur_sec.empty_idx.saturating_add(LOG_IDX_DATA_SIZE);
        self.cur_sec.empty_data = self.cur_sec.empty_data.saturating_sub(
            wg_align(blob.len() as u32),
        );
        let left: i64 = self.cur_sec.remain - cost;
        self.cur_sec.remain = if left < REMAIN_FLOOR {
            REMAIN_FLOOR
        } else {
            left
        };
        self.last_time = cur_time;
        Ok(())
    }

    /// Append a log, with the current time where no timestamp is given.
    fn tsl_append(&mut self, blob: &[u8], timestamp: Option<FdbTime>) -> (r: Result<()>)
        requires
            old(self).inv(),
            timestamp is None ==> call_requires(old(self).clock().source(), ()),
        ensures
            final(self).fixed_part() == old(self).fixed_part(),
            final(self).inv(),
            timestamp is Some ==> final(self).clock() == old(self).clock(),
            old(self).backed() ==> final(self).backed() && exists|t: FdbTime|
                {
                    &&& timestamp matches Some(given) ==> t == given
                    &&& timestamp is None ==> call_ensures(old(self).clock().source(), (), t)
                    &&& timestamp is None ==> final(self).clock().readings() == old(
                        self,
                    ).clock().readings().push(t)
                    &&& (final(self).state(), r) == #[trigger] model::append(
                        old(self).state(),
                        blob@,
                        t as int,
                    )
                },
    {
        let cur_time: FdbTime = match timestamp {
            Some(t) => t,
            None => self.get_time.lend().read(),
        };
        let r: Result<()> = self.append_at(blob, cur_time);
        assert(old(self).backed() ==> (self.state(), r) == model::append(
            old(self).state(),
            blob@,
            cur_time as int,
        ));
        r
    }

    /// Append a new log with the current timestamp.
    pub fn append(&mut self, blob: &[u8]) -> (r: Result<()>)
        requires
            old(self).inv(),
            call_requires(old(self).clock().source(), ()),
        ensures
            final(self).fixed_part() == old(self).fixed_part(),
            final(self).inv(),
            !old(self).rest().ready ==> r == Err::<(), _>(FdbError::InitFailed) && *final(self)
                == *old(self),
            old(self).rest().ready && old(self).backed() ==> final(self).backed() && exists|
                t: FdbTime,
            |
                {
                    &&& call_ensures(old(self).clock().source(), (), t)
                    &&& final(self).clock().readings() == old(self).clock().readings().push(t)
                    &&& (final(self).state(), r) == #[trigger] model::append(
                        old(self).state(),
                        blob@,
                        t as int,
                    )
                },
    {
        if !self.init_ok {
            return Err(FdbError::InitFailed);
        }
        self.tsl_append(blob, None)
    }

    /// Append a new log with an explicit timestamp.
    pub fn append_with_ts(&mut self, blob: &[u8], timestamp: FdbTime) -> (r: Result<()>)
        requires
            old(self).inv(),
        ensures
            final(self).fixed_part() == old(self).fixed_part(),
            final(self).clock() == old(self).clock(),
            final(self).inv(),
            !old(self).rest().ready ==> r == Err::<(), _>(FdbError::InitFailed) && *final(self)
                == *old(self),
            old(self).rest().ready && old(self).backed() ==> final(self).backed() && (
            final(self).state(), r) == model::append(old(self).state(), blob@, timestamp as int),
    {
        if !self.init_ok {
            return Err(FdbError::InitFailed);
        }
        self.tsl_append(blob, Some(timestamp))
    }

    /// Set a TSL's status.
    pub fn set_status(&mut self, tsl: &Tsl, status: TslStatus) -> (r: Result<()>)
        ensures
            final(self).rest() == old(self).rest(),
            final(self).clock() == old(self).clock(),
            old(self).backed() ==> {
                let i = def::tsl_index_of(status);
                &&& final(self).backed()
                &&& final(self).medium() == flash::put_status(
                    old(self).medium(),
                    tsl.log().at,
                    i,
                    true,
                )
                &&& r == flash::put_status_result(old(self).medium(), tsl.log().at, i)
            },
    {
        write_status(&mut self.storage, tsl.addr_index, TSL_STATUS_NUM, status.index(), true)
    }

    /// Read a TSL's blob data into `buf`, returning the number of bytes read.
    pub fn read_log(&mut self, tsl: &Tsl, buf: &mut [u8]) -> (r: usize)
        ensures
            final(self).rest() == old(self).rest(),
            final(self).clock() == old(self).clock(),
            final(buf)@.len() == old(buf)@.len(),
            r <= old(buf)@.len(),
            old(self).backed() ==> {
                let l = tsl.log();
                let k = if old(buf)@.len() <= l.len {
                    old(buf)@.len() as int
                } else {
                    l.len
                };
                let m = old(self).medium();
                &&& final(self).backed()
                &&& final(self).medium() == m
                &&& r == (if m.holds(l.data_at, k) {
                    k
                } else {
                    0
                })
                &&& final(buf)@ == (if m.holds(l.data_at, k) {
                    m.bytes.subrange(l.data_at, l.data_at + k) + old(buf)@.subrange(
                        k,
                        old(buf)@.len() as int,
                    )
                } else {
                    old(buf)@
                })
            },
            old(self).backed() ==> forall|e: Entry| #[trigger]
                laws::shows(old(self).medium(), tsl.log(), e) ==> {
                    &&& r == (if e.data.len() <= old(buf)@.len() {
                        e.data.len()
                    } else {
                        old(buf)@.len()
                    })
                    &&& forall|i: int|
                        0 <= i < old(buf)@.len() && i < e.data.len() ==> #[trigger] final(buf)@[i]
                            == e.data[i]
                    &&& forall|i: int|
                        e.data.len() <= i < old(buf)@.len() ==> #[trigger] final(buf)@[i] == old(
                            buf,
                        )@[i]
                },
    {
        let read_len: usize = if buf.len() <= tsl.log_len as usize {
            buf.len()
        } else {
            tsl.log_len as usize
        };
        let failed: bool;
        {
            let (head, _tail) = buf.split_at_mut(read_len);
            failed = self.storage.read(tsl.addr_log, head).is_err();
        }
        proof {
            let m = old(self).medium();
            let l = tsl.log();
            let k = read_len as int;
            if old(self).backed() {
                assert(old(buf)@.subrange(0, k) + old(buf)@.subrange(k, old(buf)@.len() as int)
                    =~= old(buf)@);
                assert forall|e: Entry| #[trigger] laws::shows(m, l, e) implies {
                    &&& (!failed ==> read_len == (if e.data.len() <= old(buf)@.len() {
                        e.data.len()
                    } else {
                        old(buf)@.len()
                    }))
                    &&& failed ==> e.data.len() == 0 || old(buf)@.len() == 0
                    &&& forall|i: int|
                        0 <= i < old(buf)@.len() && i < e.data.len() ==> #[trigger] buf@[i]
                            == e.data[i]
                    &&& forall|i: int|
                        e.data.len() <= i < old(buf)@.len() ==> #[trigger] buf@[i] == old(buf)@[i]
                } by {
                    assert forall|i: int| 0 <= i < old(buf)@.len() && i < e.data.len() implies #[trigger] buf@[i]
                        == e.data[i] by {
                        assert(model::data_of(m, l)[i] == m.bytes[l.data_at + i]);
                    }
                }
            }
        }
        if failed {
            return 0;
        }
        read_len
    }
}

/// What the log objects in a list hold.
pub open spec fn logs_of(tsls: Seq<Tsl>) -> Seq<Log> {
    tsls.map_values(|t: Tsl| t.log())
}

/// Whether a call of the callback in the state `f` with this log and its data may
/// give `r`.
pub open spec fn gave<F: FnMut(&Tsl, &[u8]) -> bool>(f: F, log: Log, data: Seq<u8>, r: bool) -> bool {
    exists|t: &Tsl, d: &[u8]|
        t.log() == log && d@ == data && #[trigger] call_ensures(f, (t, d), r)
}

/// Whether calls of a callback on the logs in order, with their data on the medium `m`, can
/// have given `rs`, up to the first that gave `true`: the `i`th result is one that the
/// callback may give in the state `fs[i]`. The first of these states is `f`; how a call turns
/// one state into the next is left open. That no other calls are made is said by the calls on
/// record, see [`one_call_each`].
pub open spec fn visited<F: FnMut(&Tsl, &[u8]) -> bool>(
    m: Medium,
    logs: Seq<Log>,
    f: F,
    fs: Seq<F>,
    rs: Seq<bool>,
) -> bool {
    &&& fs.len() == rs.len() + 1
    &&& fs[0] == f
    &&& rs.len() <= logs.len()
    &&& forall|i: int|
        0 <= i < rs.len() ==> gave(#[trigger] fs[i], logs[i], model::data_of(m, logs[i]), rs[i])
    &&& forall|i: int| 0 <= i < rs.len() - 1 ==> !#[trigger] rs[i]
    &&& rs.len() < logs.len() ==> rs.len() > 0 && rs.last()
}

/// The calls of a callback on the first of the logs, with their data on the medium `m`, that
/// gave `rs`: one call for each.
pub open spec fn one_call_each(m: Medium, logs: Seq<Log>, rs: Seq<bool>) -> Seq<Call> {
    Seq::new(
        rs.len(),
        |i: int| Call { log: logs[i], data: model::data_of(m, logs[i]), stop: rs[i] },
    )
}

impl<S: Storage, C: FnMut() -> FdbTime> Tsdb<S, C> {
    // ---------------------------------------------------------------------- iteration

    /// Push the logs of `sector` from its first record on.
    fn push_logs(&mut self, sector: &TsdbSecInfo, out: &mut Vec<Tsl>)
        requires
            old(self).inv(),
            sector.info().at + 48 <= u32::MAX,
        ensures
            final(self).rest() == old(self).rest(),
            final(self).clock() == old(self).clock(),
            old(self).backed() ==> {
                &&& final(self).backed()
                &&& final(self).medium() == old(self).medium()
                &&& logs_of(final(out)@) == logs_of(old(out)@) + model::logs_from(
                    old(self).medium(),
                    old(self).rest().max_len,
                    sector.info(),
                    sector.info().at + 32,
                )
            },
    {
        let mut tsl: Tsl = Tsl::blank();
        tsl.addr_index = sector.addr + SECTOR_HDR_DATA_SIZE;
        let ghost b = self.backed();
        let ghost m = self.medium();
        let ghost max_len = self.rest().max_len;
        let ghost goal = logs_of(out@) + model::logs_from(
            m,
            max_len,
            sector.info(),
            sector.info().at + 32,
        );
        loop
            invariant_except_break
                self.inv(),
                self.rest() == old(self).rest(),
                self.clock() == old(self).clock(),
                max_len == self.rest().max_len,
                b ==> self.backed() && self.medium() == m,
                b ==> goal == logs_of(out@) + model::logs_from(
                    m,
                    max_len,
                    sector.info(),
                    tsl.log().at,
                ),
            ensures
                self.rest() == old(self).rest(),
                self.clock() == old(self).clock(),
                b ==> self.backed() && self.medium() == m && goal == logs_of(out@),
            decreases 0x1_0000_0000 - tsl.addr_index,
        {
            let ghost before = out@;
            self.read_tsl(&mut tsl);
            out.push(tsl);
            assert(logs_of(out@) =~= logs_of(before).push(tsl.log()));
            let next: u32 = get_next_tsl_addr(sector, &tsl);
            proof {
                if b {
                    let l = tsl.log();
                    assert(logs_of(before) + seq![l] =~= logs_of(out@));
                    if next != FAILED_ADDR {
                        let more = model::logs_from(m, max_len, sector.info(), next as int);
                        assert(logs_of(before) + (seq![l] + more) =~= logs_of(out@) + more);
                    }
                }
            }
            if next == FAILED_ADDR {
                break;
            }
            tsl.addr_index = next;
        }
    }

    /// Collect all TSLs in storage order.
    pub fn collect(&mut self) -> (r: Vec<Tsl>)
        requires
            old(self).inv(),
        ensures
            final(self).rest() == old(self).rest(),
            final(self).clock() == old(self).clock(),
            !old(self).rest().ready ==> r@.len() == 0 && *final(self) == *old(self),
            old(self).rest().ready && old(self).backed() ==> {
                &&& final(self).backed()
                &&& final(self).medium() == old(self).medium()
                &&& logs_of(r@) == model::collect(old(self).state())
            },
    {
        let mut out: Vec<Tsl> = Vec::new();
        if !self.init_ok {
            return out;
        }
        let mut sec_addr: u32 = self.oldest_addr;
        let mut traversed_len: u32 = 0;
        let ghost b = self.backed();
        let ghost st = self.state();
        let ghost goal = model::collect(st);
        assert(goal =~= logs_of(out@) + model::collect_from(st, st.oldest, 0));
        loop
            invariant
                self.inv(),
                self.rest() == old(self).rest(),
                self.clock() == old(self).clock(),
                self.rest().ready,
                st == old(self).state(),
                st.geo == self.geo(),
                st.cur == self.rest().cur,
                b == old(self).backed(),
                b ==> self.backed() && self.medium() == st.m,
                db::is_sector(st.geo, sec_addr as int),
                traversed_len <= st.geo.max,
                goal == model::collect(st),
                b ==> goal == logs_of(out@) + model::collect_from(
                    st,
                    sec_addr as int,
                    traversed_len as int,
                ),
            decreases st.geo.max + st.geo.sec - traversed_len,
        {
            let ghost before = logs_of(out@);
            let ghost t0 = traversed_len as int;
            traversed_len = traversed_len + self.sec_size;
            let mut sector: TsdbSecInfo = TsdbSecInfo::blank();
            if self.read_sector_info(sec_addr, &mut sector, false).is_ok() && (sector.status
                == SectorStoreStatus::Using || sector.status == SectorStoreStatus::Full) {
                if sector.status == SectorStoreStatus::Using {
                    sector = self.cur_sec;
                }
                self.push_logs(&sector, &mut out);
            }
            let next: u32 = self.get_next_sector_addr(&sector, traversed_len);
            proof {
                if b {
                    let here = if model::has_logs(st, sec_addr as int) {
                        model::logs_from(st.m, st.max_len, sector.info(), sector.info().at + 32)
                    } else {
                        Seq::empty()
                    };
                    assert(sector.info() == model::sector_here(st, sec_addr as int));
                    assert(logs_of(out@) =~= before + here);
                    if next != FAILED_ADDR {
                        let more = model::collect_from(st, next as int, traversed_len as int);
                        assert(before + (here + more) =~= logs_of(out@) + more);
                    }
                }
            }
            if next == FAILED_ADDR {
                return out;
            }
            sec_addr = next;
        }
    }

    /// The data of a TSL: what can be read of it.
    fn log_data(&mut self, tsl: &Tsl) -> (r: Vec<u8>)
        ensures
            final(self).rest() == old(self).rest(),
            final(self).clock() == old(self).clock(),
            old(self).backed() ==> {
                &&& final(self).backed()
                &&& final(self).medium() == old(self).medium()
                &&& r@ == model::data_of(old(self).medium(), tsl.log())
            },
    {
        let mut buf: Vec<u8> = vec![0u8; tsl.log_len as usize];
        let n: usize = self.read_log(tsl, buf.as_mut_slice());
        buf.truncate(n);
        assert(old(self).backed() ==> buf@ =~= model::data_of(old(self).medium(), tsl.log()));
        buf
    }

    /// Call a callback on each TSL with its data, until it returns `true`.
    fn visit<F: FnMut(&Tsl, &[u8]) -> bool>(&mut self, tsls: &Vec<Tsl>, f: &mut Callback<F>)
        requires
            forall|g: F, a: &Tsl, b: &[u8]| call_requires(g, (a, b)),
        ensures
            final(self).rest() == old(self).rest(),
            final(self).clock() == old(self).clock(),
            *final(final(f).record()) == *final(old(f).record()),
            tsls@.len() == 0 ==> *final(self) == *old(self),
            old(self).backed() ==> {
                &&& final(self).backed()
                &&& final(self).medium() == old(self).medium()
                &&& exists|fs: Seq<F>, rs: Seq<bool>|
                    {
                        &&& #[trigger] visited(
                            old(self).medium(),
                            logs_of(tsls@),
                            old(f).callback(),
                            fs,
                            rs,
                        )
                        &&& final(f).record().calls() == old(f).record().calls() + one_call_each(
                            old(self).medium(),
                            logs_of(tsls@),
                            rs,
                        )
                    }
            },
    {
        let mut i: usize = 0;
        let ghost b = self.backed();
        let ghost m = self.medium();
        let ghost logs = logs_of(tsls@);
        let ghost f0 = f.callback();
        let ghost before = f.record().calls();
        let ghost mut fs: Seq<F> = seq![f0];
        let ghost mut rs: Seq<bool> = seq![];
        assert(before =~= before + one_call_each(m, logs, rs));
        while i < tsls.len()
            invariant
                tsls@.len() == 0 ==> *self == *old(self),
                forall|g: F, a: &Tsl, b: &[u8]| call_requires(g, (a, b)),
                i <= tsls@.len(),
                self.rest() == old(self).rest(),
                self.clock() == old(self).clock(),
                b == old(self).backed(),
                m == old(self).medium(),
                b ==> self.backed() && self.medium() == m,
                logs == logs_of(tsls@),
                f0 == old(f).callback(),
                before == old(f).record().calls(),
                *final(f.record()) == *final(old(f).record()),
                fs.len() == i + 1,
                rs.len() == i,
                fs[0] == f0,
                fs.last() == f.callback(),
                b ==> forall|k: int|
                    0 <= k < i ==> gave(
                        #[trigger] fs[k],
                        logs[k],
                        model::data_of(m, logs[k]),
                        rs[k],
                    ),
                b ==> f.record().calls() == before + one_call_each(m, logs, rs),
                forall|k: int| 0 <= k < i ==> !#[trigger] rs[k],
            decreases tsls@.len() - i,
        {
            let buf: Vec<u8> = self.log_data(&tsls[i]);
            let ghost fb = f.callback();
            let ghost made = f.record().calls();
            let t: &Tsl = &tsls[i];
            let d: &[u8] = buf.as_slice();
            let stop: bool = f.lend().call(t, d);
            proof {
                assert(call_ensures(fb, (t, d), stop));
                let rs1 = rs.push(stop);
                if b {
                    assert(gave(fb, logs[i as int], model::data_of(m, logs[i as int]), stop));
                    assert(one_call_each(m, logs, rs1) =~= one_call_each(m, logs, rs).push(
                        Call { log: t.log(), data: d@, stop },
                    ));
                    assert(f.record().calls() =~= before + one_call_each(m, logs, rs1));
                }
                fs = fs.push(f.callback());
                rs = rs1;
            }
            if stop {
                assert(b ==> visited(m, logs, f0, fs, rs));
                return;
            }
            i = i + 1;
        }
        assert(b ==> visited(m, logs, f0, fs, rs));
    }

    /// Iterate every TSL forward, reading each blob. The callback receives the TSL and
    /// its data; return `true` to stop early.
    pub fn iter<F: FnMut(&Tsl, &[u8]) -> bool>(&mut self, f: F)
        requires
            old(self).inv(),
            forall|g: F, a: &Tsl, b: &[u8]| call_requires(g, (a, b)),
        ensures
            final(self).rest() == old(self).rest(),
            final(self).clock() == old(self).clock(),
            !old(self).rest().ready ==> *final(self) == *old(self),
            old(self).rest().ready && old(self).backed() ==> {
                &&& final(self).backed()
                &&& final(self).medium() == old(self).medium()
                &&& exists|fs: Seq<F>, rs: Seq<bool>|
                    {
                        &&& #[trigger] visited(
                            old(self).medium(),
                            model::collect(old(self).state()),
                            f,
                            fs,
                            rs,
                        )
                        &&& final(self).calls() == old(self).calls() + one_call_each(
                            old(self).medium(),
                            model::collect(old(self).state()),
                            rs,
                        )
                    }
            },
    {
        if !self.init_ok {
            return;
        }
        let mut calls: Record = Record::new();
        std::mem::swap(&mut calls, &mut self.calls);
        let tsls: Vec<Tsl> = self.collect();
        let mut callback: Callback<F> = Callback::new(f, &mut calls);
        self.visit(&tsls, &mut callback);
        callback.end();
        self.calls = calls;
    }

    /// Iterate every TSL in reverse storage order.
    pub fn iter_reverse<F: FnMut(&Tsl, &[u8]) -> bool>(&mut self, f: F)
        requires
            old(self).inv(),
            forall|g: F, a: &Tsl, b: &[u8]| call_requires(g, (a, b)),
        ensures
            final(self).rest() == old(self).rest(),
            final(self).clock() == old(self).clock(),
            !old(self).rest().ready ==> *final(self) == *old(self),
            old(self).rest().ready && old(self).backed() ==> {
                &&& final(self).backed()
                &&& final(self).medium() == old(self).medium()
                &&& exists|fs: Seq<F>, rs: Seq<bool>|
                    {
                        &&& #[trigger] visited(
                            old(self).medium(),
                            model::collect_reverse(old(self).state()),
                            f,
                            fs,
                            rs,
                        )
                        &&& final(self).calls() == old(self).calls() + one_call_each(
                            old(self).medium(),
                            model::collect_reverse(old(self).state()),
                            rs,
                        )
                    }
            },
    {
        if !self.init_ok {
            return;
        }
        let mut calls: Record = Record::new();
        std::mem::swap(&mut calls, &mut self.calls);
        let tsls: Vec<Tsl> = self.collect_reverse();
        let mut callback: Callback<F> = Callback::new(f, &mut calls);
        self.visit(&tsls, &mut callback);
        callback.end();
        self.calls = calls;
    }

    /// Push the logs of `sector` from its last record down.
    fn push_logs_down(&mut self, sector: &TsdbSecInfo, out: &mut Vec<Tsl>)
        requires
            old(self).inv(),
            sector.info().at + 48 <= u32::MAX,
        ensures
            final(self).rest() == old(self).rest(),
            final(self).clock() == old(self).clock(),
            old(self).backed() ==> {
                &&& final(self).backed()
                &&& final(self).medium() == old(self).medium()
                &&& logs_of(final(out)@) == logs_of(old(out)@) + model::logs_down(
                    old(self).medium(),
                    old(self).rest().max_len,
                    sector.info(),
                    sector.info().end_idx,
                )
            },
    {
        let mut tsl: Tsl = Tsl::blank();
        tsl.addr_index = sector.end_idx;
        let ghost b = self.backed();
        let ghost m = self.medium();
        let ghost max_len = self.rest().max_len;
        let ghost goal = logs_of(out@) + model::logs_down(
            m,
            max_len,
            sector.info(),
            sector.info().end_idx,
        );
        loop
            invariant_except_break
                self.inv(),
                self.rest() == old(self).rest(),
                self.clock() == old(self).clock(),
                max_len == self.rest().max_len,
                sector.info().at + 48 <= u32::MAX,
                b ==> self.backed() && self.medium() == m,
                b ==> goal == logs_of(out@) + model::logs_down(
                    m,
                    max_len,
                    sector.info(),
                    tsl.log().at,
                ),
            ensures
                self.rest() == old(self).rest(),
                self.clock() == old(self).clock(),
                b ==> self.backed() && self.medium() == m && goal == logs_of(out@),
            decreases tsl.addr_index,
        {
            let ghost before = out@;
            self.read_tsl(&mut tsl);
            out.push(tsl);
            assert(logs_of(out@) =~= logs_of(before).push(tsl.log()));
            let next: u32 = get_last_tsl_addr(sector, &tsl);
            proof {
                if b {
                    let l = tsl.log();
                    assert(logs_of(before) + seq![l] =~= logs_of(out@));
                    if next != FAILED_ADDR {
                        let more = model::logs_down(m, max_len, sector.info(), next as int);
                        assert(logs_of(before) + (seq![l] + more) =~= logs_of(out@) + more);
                    }
                }
            }
            if next == FAILED_ADDR {
                break;
            }
            tsl.addr_index = next;
        }
    }

    /// Collect all TSLs in reverse storage order.
    fn collect_reverse(&mut self) -> (r: Vec<Tsl>)
        requires
            old(self).inv(),
        ensures
            final(self).rest() == old(self).rest(),
            final(self).clock() == old(self).clock(),
            !old(self).rest().ready ==> r@.len() == 0 && *final(self) == *old(self),
            old(self).rest().ready && old(self).backed() ==> {
                &&& final(self).backed()
                &&& final(self).medium() == old(self).medium()
                &&& logs_of(r@) == model::collect_reverse(old(self).state())
            },
    {
        let mut out: Vec<Tsl> = Vec::new();
        if !self.init_ok {
            return out;
        }
        let mut sec_addr: u32 = self.cur_sec.addr;
        let mut traversed_len: u32 = 0;
        let ghost b = self.backed();
        let ghost st = self.state();
        let ghost goal = model::collect_reverse(st);
        assert(goal =~= logs_of(out@) + model::collect_down(st, st.cur.at, 0));
        loop
            invariant
                self.inv(),
                self.rest() == old(self).rest(),
                self.clock() == old(self).clock(),
                self.rest().ready,
                st == old(self).state(),
                st.geo == self.geo(),
                st.cur == self.rest().cur,
                b == old(self).backed(),
                b ==> self.backed() && self.medium() == st.m,
                db::is_sector(st.geo, sec_addr as int),
                traversed_len <= st.geo.max,
                goal == model::collect_reverse(st),
                b ==> goal == logs_of(out@) + model::collect_down(
                    st,
                    sec_addr as int,
                    traversed_len as int,
                ),
            decreases st.geo.max + st.geo.sec - traversed_len,
        {
            let ghost before = logs_of(out@);
            traversed_len = traversed_len + self.sec_size;
            let mut sector: TsdbSecInfo = TsdbSecInfo::blank();
            if self.read_sector_info(sec_addr, &mut sector, false).is_ok() {
                if sector.status == SectorStoreStatus::Using || sector.status
                    == SectorStoreStatus::Full {
                    if sector.status == SectorStoreStatus::Using {
                        sector = self.cur_sec;
                    }
                    self.push_logs_down(&sector, &mut out);
                } else {
                    assert(b ==> goal =~= before);
                    return out;
                }
            }
            let next: u32 = self.get_last_sector_addr(&sector, traversed_len);
            proof {
                if b {
                    let here = if model::has_logs(st, sec_addr as int) {
                        model::logs_down(st.m, st.max_len, sector.info(), sector.info().end_idx)
                    } else {
                        Seq::empty()
                    };
                    assert(sector.info() == model::sector_here(st, sec_addr as int));
                    assert(logs_of(out@) =~= before + here);
                    if next != FAILED_ADDR {
                        let more = model::collect_down(st, next as int, traversed_len as int);
                        assert(before + (here + more) =~= logs_of(out@) + more);
                    }
                }
            }
            if next == FAILED_ADDR {
                return out;
            }
            sec_addr = next;
        }
    }
}

/// What opening a database on `storage` gives: an error where the geometry or the
/// greatest length cannot be, else what opening it on the storage's medium gives.
pub open spec fn opened<S: Storage, C: FnMut() -> FdbTime>(
    r: Result<Tsdb<S, C>>,
    storage: S,
    sec_size: u32,
    max_size: u32,
    clock: C,
    max_len: usize,
    fixed: bool,
) -> bool {
    let geo = db::geo_of(sec_size, max_size);
    let (st, res) = model::open_db(storage.medium(), geo, max_len as int, fixed);
    if !db::geometry_ok(geo.sec, geo.max) || max_len >= sec_size {
        r is Err && r->Err_0 == FdbError::InitFailed
    } else {
        &&& flash::backs(&storage) ==> {
            &&& r is Ok <==> res is Ok
            &&& r is Err ==> r->Err_0 == res->Err_0
            &&& r is Ok ==> r->Ok_0.backed() && r->Ok_0.state() == st
        }
        &&& r matches Ok(db) ==> {
            &&& db.inv()
            &&& db.geo() == geo
            &&& db.clock().source() == clock
            &&& db.clock().readings() == Seq::<FdbTime>::empty()
            &&& db.rest().ready
            &&& db.rest().rollover
            &&& db.rest().fixed == fixed
            &&& db.rest().max_len == max_len
        }
    }
}

impl<S: Storage, C: FnMut() -> FdbTime> Tsdb<S, C> {
    // ------------------------------------------------------------------------ by time

    /// Search the records from `start_in` to `end_in` for the one to start with.
    fn search_start_tsl_addr(
        &mut self,
        start_in: u32,
        end_in: u32,
        from: FdbTime,
        to: FdbTime,
    ) -> (r: u32)
        requires
            old(self).inv(),
            start_in >= 16,
        ensures
            final(self).rest() == old(self).rest(),
            final(self).clock() == old(self).clock(),
            old(self).backed() ==> {
                &&& final(self).backed()
                &&& final(self).medium() == old(self).medium()
                &&& r == model::search(
                    old(self).medium(),
                    old(self).rest().max_len,
                    start_in as int,
                    end_in as int,
                    from as int,
                    to as int,
                )
            },
    {
        let mut start: i64 = start_in as i64;
        let mut end: i64 = end_in as i64;
        let mut tsl: Tsl = Tsl::blank();
        let ghost b = self.backed();
        let ghost m = self.medium();
        let ghost max_len = self.rest().max_len;
        let ghost goal = model::search(
            m,
            max_len,
            start_in as int,
            end_in as int,
            from as int,
            to as int,
        );
        loop
            invariant
                self.inv(),
                self.rest() == old(self).rest(),
                self.clock() == old(self).clock(),
                max_len == self.rest().max_len,
                b == old(self).backed(),
                m == old(self).medium(),
                b ==> self.backed() && self.medium() == m,
                16 <= start <= 0x1_0000_0000,
                -16 <= end <= 0xFFFF_FFFF,
                goal == model::search(
                    m,
                    max_len,
                    start_in as int,
                    end_in as int,
                    from as int,
                    to as int,
                ),
                b ==> goal == model::search(
                    m,
                    max_len,
                    start as int,
                    end as int,
                    from as int,
                    to as int,
                ),
            decreases
                    (if end < start {
                        0
                    } else {
                        end - start + 1
                    }),
        {
            let half: i64 = if end < start {
                0
            } else {
                (end - start) / 2
            };
            let mid: i64 = start + align_up(half, LOG_IDX_DATA_SIZE as i64);
            assert(mid == model::middle(start as int, end as int));
            tsl.addr_index = low_word(mid);
            self.read_tsl(&mut tsl);
            if tsl.time < from {
                start = mid + LOG_IDX_DATA_SIZE as i64;
            } else if tsl.time > from {
                end = mid - LOG_IDX_DATA_SIZE as i64;
            } else {
                return tsl.addr_index;
            }
            if start > end {
                if from > to {
                    tsl.addr_index = low_word(start);
                    self.read_tsl(&mut tsl);
                    if tsl.time > from {
                        start = start - LOG_IDX_DATA_SIZE as i64;
                    }
                }
                return low_word(start);
            }
        }
    }

    /// Push the logs of `sector` between `from` and `to`, from the one at `at` on (or
    /// down). Returns whether a log beyond them was come to.
    fn push_range(
        &mut self,
        sector: &TsdbSecInfo,
        at: u32,
        from: FdbTime,
        to: FdbTime,
        out: &mut Vec<Tsl>,
    ) -> (r: bool)
        requires
            old(self).inv(),
            sector.info().at + 48 <= u32::MAX,
        ensures
            final(self).rest() == old(self).rest(),
            final(self).clock() == old(self).clock(),
            old(self).backed() ==> {
                let (logs, beyond) = model::scan(
                    old(self).medium(),
                    old(self).rest().max_len,
                    sector.info(),
                    at as int,
                    from as int,
                    to as int,
                );
                &&& final(self).backed()
                &&& final(self).medium() == old(self).medium()
                &&& logs_of(final(out)@) == logs_of(old(out)@) + logs
                &&& r == beyond
            },
    {
        let dir: Dir = if from <= to {
            Dir::Fwd
        } else {
            Dir::Rev
        };
        let mut tsl: Tsl = Tsl::blank();
        tsl.addr_index = at;
        let ghost b = self.backed();
        let ghost m = self.medium();
        let ghost max_len = self.rest().max_len;
        let ghost info = sector.info();
        let ghost whole = model::scan(m, max_len, info, at as int, from as int, to as int);
        let ghost goal = (logs_of(out@) + whole.0, whole.1);
        loop
            invariant
                self.inv(),
                self.rest() == old(self).rest(),
                self.clock() == old(self).clock(),
                max_len == self.rest().max_len,
                info == sector.info(),
                info.at + 48 <= u32::MAX,
                dir == Dir::Fwd <==> from <= to,
                b == old(self).backed(),
                m == old(self).medium(),
                b ==> self.backed() && self.medium() == m,
                whole == model::scan(
                    old(self).medium(),
                    old(self).rest().max_len,
                    sector.info(),
                    at as int,
                    from as int,
                    to as int,
                ),
                goal == (logs_of(old(out)@) + whole.0, whole.1),
                b ==> {
                    let rest = model::scan(
                        m,
                        max_len,
                        info,
                        tsl.log().at,
                        from as int,
                        to as int,
                    );
                    goal == (logs_of(out@) + rest.0, rest.1)
                },
            decreases
                    (if from <= to {
                        0x1_0000_0000 - tsl.addr_index
                    } else {
                        tsl.addr_index as int
                    }),
        {
            let ghost before = logs_of(out@);
            self.read_tsl(&mut tsl);
            let ghost l = tsl.log();
            let ghost mut here: Seq<Log> = Seq::empty();
            if tsl.status != TslStatus::Unused {
                let in_range: bool = match dir {
                    Dir::Fwd => tsl.time >= from && tsl.time <= to,
                    Dir::Rev => tsl.time <= from && tsl.time >= to,
                };
                if in_range {
                    out.push(tsl);
                    proof {
                        here = seq![l];
                    }
                } else {
                    assert(b ==> goal.0 =~= before);
                    return true;
                }
            }
            assert(logs_of(out@) =~= before + here);
            let next: u32 = match dir {
                Dir::Fwd => get_next_tsl_addr(sector, &tsl),
                Dir::Rev => get_last_tsl_addr(sector, &tsl),
            };
            proof {
                if b && next != FAILED_ADDR {
                    let more = model::scan(
                        m,
                        max_len,
                        info,
                        next as int,
                        from as int,
                        to as int,
                    ).0;
                    assert(before + (here + more) =~= logs_of(out@) + more);
                }
            }
            if next == FAILED_ADDR {
                return false;
            }
            tsl.addr_index = next;
        }
    }

    /// Collect TSLs whose timestamp falls in `[from, to]` (or `[to, from]` when
    /// `from > to`, iterating in reverse).
    #[verifier::rlimit(60)]
    #[verifier::spinoff_prover]
    pub fn collect_by_time(&mut self, from: FdbTime, to: FdbTime) -> (r: Vec<Tsl>)
        requires
            old(self).inv(),
        ensures
            final(self).rest() == old(self).rest(),
            final(self).clock() == old(self).clock(),
            !old(self).rest().ready ==> r@.len() == 0 && *final(self) == *old(self),
            old(self).rest().ready && old(self).backed() ==> {
                &&& final(self).backed()
                &&& final(self).medium() == old(self).medium()
                &&& logs_of(r@) == model::by_time(old(self).state(), from as int, to as int)
            },
    {
        let mut out: Vec<Tsl> = Vec::new();
        if !self.init_ok {
            return out;
        }
        let dir: Dir = if from <= to {
            Dir::Fwd
        } else {
            Dir::Rev
        };
        let start_addr: u32 = match dir {
            Dir::Fwd => self.oldest_addr,
            Dir::Rev => self.cur_sec.addr,
        };
        let mut found_start_tsl: bool = false;
        let mut sec_addr: u32 = start_addr;
        let mut traversed_len: u32 = 0;
        let ghost b = self.backed();
        let ghost st = self.state();
        let ghost goal = model::by_time(st, from as int, to as int);
        assert(goal =~= logs_of(out@) + goal);
        loop
            invariant
                self.inv(),
                self.rest() == old(self).rest(),
                self.clock() == old(self).clock(),
                self.rest().ready,
                st == old(self).state(),
                st.geo == self.geo(),
                st.cur == self.rest().cur,
                dir == Dir::Fwd <==> from <= to,
                b == old(self).backed(),
                b ==> self.backed() && self.medium() == st.m,
                db::is_sector(st.geo, sec_addr as int),
                traversed_len <= st.geo.max,
                goal == model::by_time(st, from as int, to as int),
                b ==> goal == logs_of(out@) + model::by_time_from(
                    st,
                    start_addr as int,
                    sec_addr as int,
                    traversed_len as int,
                    found_start_tsl,
                    from as int,
                    to as int,
                ),
            decreases st.geo.max + st.geo.sec - traversed_len,
        {
            let ghost before = logs_of(out@);
            let ghost found0 = found_start_tsl;
            let ghost mut here: Seq<Log> = Seq::empty();
            traversed_len = traversed_len + self.sec_size;
            let mut sector: TsdbSecInfo = TsdbSecInfo::blank();
            if self.read_sector_info(sec_addr, &mut sector, false).is_ok() {
                if sector.status == SectorStoreStatus::Using || sector.status
                    == SectorStoreStatus::Full {
                    if sector.status == SectorStoreStatus::Using {
                        sector = self.cur_sec;
                    }
                    let cond: bool = found_start_tsl || match dir {
                        Dir::Fwd => (sec_addr == start_addr && from <= sector.start_time) || from
                            <= sector.end_time,
                        Dir::Rev => (sec_addr == start_addr && from >= sector.end_time) || from
                            >= sector.start_time,
                    };
                    if cond {
                        found_start_tsl = true;
                        let start: u32 = sector.addr + SECTOR_HDR_DATA_SIZE;
                        let end: u32 = sector.end_idx;
                        let found: u32 = self.search_start_tsl_addr(start, end, from, to);
                        let first: u32 = if from > to && found > end {
                            end
                        } else {
                            found
                        };
                        proof {
                            here = model::scan(
                                st.m,
                                st.max_len,
                                sector.info(),
                                first as int,
                                from as int,
                                to as int,
                            ).0;
                        }
                        if self.push_range(&sector, first, from, to, &mut out) {
                            return out;
                        }
                    }
                } else if sector.status == SectorStoreStatus::Empty {
                    assert(b ==> goal =~= before);
                    return out;
                }
            }
            assert(b ==> logs_of(out@) =~= before + here);
            assert(b ==> sector.info() == model::sector_here(st, sec_addr as int));
            let next: u32 = match dir {
                Dir::Fwd => self.get_next_sector_addr(&sector, traversed_len),
                Dir::Rev => self.get_last_sector_addr(&sector, traversed_len),
            };
            proof {
                if b && next != FAILED_ADDR {
                    let more = model::by_time_from(
                        st,
                        start_addr as int,
                        next as int,
                        traversed_len as int,
                        found_start_tsl,
                        from as int,
                        to as int,
                    );
                    assert(before + (here + more) =~= logs_of(out@) + more);
                }
            }
            if next == FAILED_ADDR {
                return out;
            }
            sec_addr = next;
        }
    }

    /// Iterate TSLs by time range, reading each blob.
    pub fn iter_by_time<F: FnMut(&Tsl, &[u8]) -> bool>(
        &mut self,
        from: FdbTime,
        to: FdbTime,
        f: F,
    )
        requires
            old(self).inv(),
            forall|g: F, a: &Tsl, b: &[u8]| call_requires(g, (a, b)),
        ensures
            final(self).rest() == old(self).rest(),
            final(self).clock() == old(self).clock(),
            !old(self).rest().ready ==> *final(self) == *old(self),
            old(self).rest().ready && old(self).backed() ==> {
                &&& final(self).backed()
                &&& final(self).medium() == old(self).medium()
                &&& exists|fs: Seq<F>, rs: Seq<bool>|
                    {
                        &&& #[trigger] visited(
                            old(self).medium(),
                            model::by_time(old(self).state(), from as int, to as int),
                            f,
                            fs,
                            rs,
                        )
                        &&& final(self).calls() == old(self).calls() + one_call_each(
                            old(self).medium(),
                            model::by_time(old(self).state(), from as int, to as int),
                            rs,
                        )
                    }
            },
    {
        if !self.init_ok {
            return;
        }
        let mut calls: Record = Record::new();
        std::mem::swap(&mut calls, &mut self.calls);
        let tsls: Vec<Tsl> = self.collect_by_time(from, to);
        let mut callback: Callback<F> = Callback::new(f, &mut calls);
        self.visit(&tsls, &mut callback);
        callback.end();
        self.calls = calls;
    }

    /// Count TSLs in `[from, to]` with the given `status`.
    pub fn query_count(&mut self, from: FdbTime, to: FdbTime, status: TslStatus) -> (r: usize)
        requires
            old(self).inv(),
        ensures
            final(self).rest() == old(self).rest(),
            final(self).clock() == old(self).clock(),
            !old(self).rest().ready ==> r == 0 && *final(self) == *old(self),
            old(self).rest().ready && old(self).backed() ==> {
                &&& final(self).backed()
                &&& final(self).medium() == old(self).medium()
                &&& r == model::count_status(
                    model::by_time(old(self).state(), from as int, to as int),
                    status,
                )
            },
    {
        if !self.init_ok {
            return 0;
        }
        let tsls: Vec<Tsl> = self.collect_by_time(from, to);
        let ghost logs = logs_of(tsls@);
        let mut n: usize = 0;
        let mut i: usize = 0;
        assert(logs.subrange(0, 0) =~= Seq::empty());
        while i < tsls.len()
            invariant
                i <= tsls@.len(),
                n <= i,
                logs == logs_of(tsls@),
                n == model::count_status(logs.subrange(0, i as int), status),
            decreases tsls@.len() - i,
        {
            if tsls[i].status == status {
                n = n + 1;
            }
            i = i + 1;
            proof {
                let now = logs.subrange(0, i as int);
                assert(now.drop_last() =~= logs.subrange(0, i - 1));
                assert(now.last() == tsls@[i - 1].log());
            }
        }
        assert(logs.subrange(0, i as int) =~= logs);
        n
    }

    /// Maximum number of blobs the database can hold.
    pub fn max_blob_count(&self) -> (r: usize)
        requires
            self.inv(),
        ensures
            r == model::max_blobs(self.geo(), self.rest().max_len),
    {
        let max_blob_len: u32 = self.max_len as u32;
        let sec_size: u32 = self.sec_size - SECTOR_HDR_DATA_SIZE;
        let blob_size: u32 = LOG_IDX_DATA_SIZE + wg_align(max_blob_len);
        let n_sec: u32 = self.max_size / self.sec_size;
        let per_sec: u32 = sec_size / blob_size;
        proof {
            let sec = self.sec_size as int;
            let max = self.max_size as int;
            let n = n_sec as int;
            let p = per_sec as int;
            let avail = sec_size as int;
            let size = blob_size as int;
            vstd::arithmetic::div_mod::lemma_fundamental_div_mod(max, sec);
            assert(p <= avail) by (nonlinear_arith)
                requires
                    p == avail / size,
                    size >= 16,
                    avail >= 0,
            ;
            assert(n * p <= max) by (nonlinear_arith)
                requires
                    0 <= p <= sec,
                    0 <= n,
                    sec * n <= max,
            ;
            assert(sec * n <= max) by {
                vstd::arithmetic::div_mod::lemma_mod_bound(max, sec);
            }
        }
        (n_sec as usize) * (per_sec as usize)
    }

    // ------------------------------------------------------------------- clean / init

    /// Erase all data. DANGEROUS and irreversible.
    pub fn clean(&mut self)
        requires
            model::geo_ok(old(self).geo()),
            old(self).rest().max_len < old(self).geo().sec,
        ensures
            final(self).fixed_part() == old(self).fixed_part(),
            final(self).clock() == old(self).clock(),
            final(self).inv(),
            old(self).backed() ==> final(self).backed() && final(self).state() == model::clean(
                old(self).state(),
            ),
    {
        let mut sec_addr: u32 = 0;
        let mut traversed_len: u32 = 0;
        let ghost b = self.backed();
        let ghost geo = self.geo();
        let ghost goal = model::format_from(self.medium(), geo, 0, 0);
        proof {
            db::lemma_geo(geo);
            vstd::arithmetic::div_mod::lemma_small_mod(0, geo.sec as nat);
        }
        loop
            invariant_except_break
                self.rest() == old(self).rest(),
                self.clock() == old(self).clock(),
                geo == self.geo(),
                model::geo_ok(geo),
                self.rest().max_len < geo.sec,
                b ==> self.backed(),
                db::is_sector(geo, sec_addr as int),
                traversed_len <= geo.max,
                b ==> goal == model::format_from(
                    self.medium(),
                    geo,
                    sec_addr as int,
                    traversed_len as int,
                ),
            ensures
                self.rest() == old(self).rest(),
                self.clock() == old(self).clock(),
                b ==> self.backed() && goal == self.medium(),
            decreases geo.max + geo.sec - traversed_len,
        {
            traversed_len = traversed_len + self.sec_size;
            let mut s: TsdbSecInfo = TsdbSecInfo::blank();
            let _ = self.read_sector_info(sec_addr, &mut s, false);
            let _ = self.format_sector(s.addr);
            let next: u32 = self.get_next_sector_addr(&s, traversed_len);
            if next == FAILED_ADDR {
                break;
            }
            sec_addr = next;
        }
        self.oldest_addr = 0;
        self.last_time = 0;
        let mut cs: TsdbSecInfo = TsdbSecInfo::blank();
        let _ = self.read_sector_info(0, &mut cs, false);
        self.cur_sec = cs;
    }

    /// Format every sector.
    fn tsl_format_all(&mut self)
        requires
            model::geo_ok(old(self).geo()),
            old(self).rest().max_len < old(self).geo().sec,
        ensures
            final(self).fixed_part() == old(self).fixed_part(),
            final(self).clock() == old(self).clock(),
            final(self).inv(),
            old(self).backed() ==> final(self).backed() && final(self).state() == model::clean(
                old(self).state(),
            ),
    {
        self.clean();
    }

    /// Survey the sectors for the one to go on with, which becomes the current sector.
    /// Returns how many sectors are empty, the last of them, and whether it failed.
    fn survey(&mut self) -> (r: (usize, u32, bool))
        requires
            model::geo_ok(old(self).geo()),
            old(self).rest().max_len < old(self).geo().sec,
            old(self).rest().cur == (TsSec { at: DATA_UNUSED as int, ..model::blank_sec() }),
        ensures
            final(self).fixed_part() == old(self).fixed_part(),
            final(self).clock() == old(self).clock(),
            final(self).rest().last_time == old(self).rest().last_time,
            final(self).rest().oldest == old(self).rest().oldest,
            db::is_sector(old(self).geo(), r.1 as int),
            final(self).rest().cur.at == DATA_UNUSED || model::cur_ok(
                old(self).geo(),
                final(self).rest().cur,
            ),
            final(self).rest().cur.at == DATA_UNUSED ==> final(self).rest().cur == (TsSec {
                at: DATA_UNUSED as int,
                ..model::blank_sec()
            }),
            r.0 > 0 ==> final(self).rest().cur.at != DATA_UNUSED,
            old(self).backed() ==> {
                &&& final(self).backed()
                &&& final(self).medium() == old(self).medium()
                &&& model::survey(
                    old(self).medium(),
                    old(self).geo(),
                    old(self).rest().max_len,
                ) == (Survey {
                    cur: final(self).rest().cur,
                    empty: r.0 as int,
                    empty_at: r.1 as int,
                    failed: r.2,
                })
            },
    {
        let (cur, empty_num, empty_addr, failed) = survey_sectors(
            &mut self.storage,
            self.sec_size,
            self.max_size,
            self.max_len,
        );
        self.cur_sec = cur;
        (empty_num, empty_addr, failed)
    }

    /// Read the current sector, and find the time of the last log.
    fn resume(&mut self)
        requires
            old(self).inv(),
        ensures
            final(self).fixed_part() == old(self).fixed_part(),
            final(self).clock() == old(self).clock(),
            final(self).inv(),
            old(self).backed() ==> final(self).backed() && final(self).state() == model::resume(
                old(self).state(),
            ),
    {
        let cur_addr: u32 = self.cur_sec.addr;
        proof {
            db::lemma_geo(self.geo());
            model::lemma_neighbours(self.geo(), cur_addr as int, 0);
        }
        let mut cs: TsdbSecInfo = TsdbSecInfo::blank();
        let _ = self.read_sector_info(cur_addr, &mut cs, true);
        self.cur_sec = cs;
        if self.cur_sec.status == SectorStoreStatus::Using || self.cur_sec.status
            == SectorStoreStatus::Full {
            self.last_time = self.cur_sec.end_time;
        } else if self.cur_sec.status == SectorStoreStatus::Empty && self.oldest_addr
            != self.cur_sec.addr {
            let addr: u32 = if self.cur_sec.addr == 0 {
                self.max_size - self.sec_size
            } else {
                self.cur_sec.addr - self.sec_size
            };
            let mut sec: TsdbSecInfo = TsdbSecInfo::blank();
            let _ = self.read_sector_info(addr, &mut sec, false);
            self.last_time = sec.end_time;
        }
    }

    /// Load the database. Where every sector is full the last one is the current one.
    fn init(&mut self) -> (r: Result<()>)
        requires
            model::geo_ok(old(self).geo()),
            old(self).rest().max_len < old(self).geo().sec,
            old(self).rest().rollover,
            old(self).rest().cur == (TsSec { at: DATA_UNUSED as int, ..model::blank_sec() }),
        ensures
            final(self).fixed_part() == old(self).fixed_part(),
            final(self).clock() == old(self).clock(),
            r is Ok ==> final(self).inv(),
            old(self).backed() ==> final(self).backed() && (final(self).state(), r)
                == model::load(old(self).state()),
    {
        let ghost geo = self.geo();
        proof {
            db::lemma_geo(geo);
        }
        let (empty_num, empty_addr, check_failed) = self.survey();
        if check_failed {
            if self.not_formatable {
                return Err(FdbError::ReadErr);
            }
            self.tsl_format_all();
        } else {
            if empty_num == 0 && self.cur_sec.addr == DATA_UNUSED {
                self.cur_sec.addr = self.max_size - self.sec_size;
                proof {
                    ring::lemma_first(geo, 0);
                    model::lemma_neighbours(geo, 0, 0);
                }
            }
            let latest_addr: u32 = if empty_num > 0 {
                empty_addr
            } else {
                self.cur_sec.addr
            };
            proof {
                model::lemma_neighbours(geo, latest_addr as int, 0);
            }
            if latest_addr + self.sec_size >= self.max_size {
                self.oldest_addr = 0;
            } else {
                self.oldest_addr = latest_addr + self.sec_size;
            }
        }
        self.resume();
        Ok(())
    }

    // --------------------------------------------------------------------- public API

    /// Open (initialising / recovering) a time-series database on `storage`.
    ///
    /// `get_time` returns the current timestamp for appended logs, `max_len` is
    /// the maximum blob length per record.
    pub fn new(
        storage: S,
        sec_size: u32,
        max_size: u32,
        get_time: C,
        max_len: usize,
    ) -> (r: Result<Self>)
        requires
            db::geometry_ok(sec_size as int, max_size as int) ==> model::geo_ok(
                db::geo_of(sec_size, max_size),
            ),
            max_len <= u32::MAX,
        ensures
            opened(r, storage, sec_size, max_size, get_time, max_len, false),
    {
        Self::with_options(storage, sec_size, max_size, get_time, max_len, false)
    }

    /// Like [`Tsdb::new`] with a non-formattable option: initialization fails on
    /// integrity errors instead of reformatting.
    pub fn with_options(
        storage: S,
        sec_size: u32,
        max_size: u32,
        get_time: C,
        max_len: usize,
        not_formatable: bool,
    ) -> (r: Result<Self>)
        requires
            db::geometry_ok(sec_size as int, max_size as int) ==> model::geo_ok(
                db::geo_of(sec_size, max_size),
            ),
            max_len <= u32::MAX,
        ensures
            opened(r, storage, sec_size, max_size, get_time, max_len, not_formatable),
    {
        match validate_geometry(sec_size, max_size) {
            Err(e) => {
                return Err(e);
            },
            Ok(_) => {},
        }
        if max_len as u32 >= sec_size {
            return Err(FdbError::InitFailed);
        }
        let mut cur_sec: TsdbSecInfo = TsdbSecInfo::blank();
        cur_sec.addr = DATA_UNUSED;
        let mut db: Tsdb<S, C> = Tsdb {
            storage,
            sec_size,
            max_size,
            oldest_addr: DATA_UNUSED,
            init_ok: false,
            not_formatable,
            get_time: Clock::new(get_time),
            max_len,
            rollover: true,
            last_time: 0,
            cur_sec,
            calls: Record::new(),
        };
        match db.init() {
            Err(e) => {
                return Err(e);
            },
            Ok(_) => {},
        }
        db.init_ok = true;
        Ok(db)
    }

    /// Consume the database and return the underlying storage.
    pub fn into_storage(self) -> (r: S)
        ensures
            r == self.held_storage(),
            r.medium() == self.medium(),
            self.backed() ==> flash::backs(&r),
    {
        self.storage
    }

    /// Borrow the underlying storage.
    pub fn storage(&self) -> (r: &S)
        ensures
            *r == self.held_storage(),
            (*r).medium() == self.medium(),
            self.backed() ==> flash::backs(r),
    {
        &self.storage
    }

    /// The oldest sector start address.
    pub fn oldest_addr(&self) -> (r: u32)
        ensures
            r == self.rest().oldest,
    {
        self.oldest_addr
    }

    /// The timestamp of the most recently appended log.
    pub fn last_time(&self) -> (r: FdbTime)
        ensures
            r == self.rest().last_time,
    {
        self.last_time
    }

    /// Whether ring-buffer rollover is enabled.
    pub fn rollover(&self) -> (r: bool)
        ensures
            r == self.rest().rollover,
    {
        self.rollover
    }

    /// Enable or disable ring-buffer rollover.
    pub fn set_rollover(&mut self, rollover: bool)
        ensures
            final(self).rest() == (TsState { rollover, ..old(self).rest() }),
            final(self).clock() == old(self).clock(),
            final(self).held_storage() == old(self).held_storage(),
            final(self).medium() == old(self).medium(),
            final(self).backed() == old(self).backed(),
    {
        self.rollover = rollover;
    }
}

} // verus!
