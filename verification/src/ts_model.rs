//! The time-series database over its medium: what the bytes of a sector mean, and
//! what each operation does to them.
//!
//! A sector starts with a header of 32 bytes. Index records of 16 bytes, one for each
//! log, follow it upwards; the logs' data grows down from the end of the sector:
//!
//! | sector header | | index record | |
//! |---|---|---|---|
//! | 0 | store status | 0 | log status |
//! | 1 | magic word | 4 | time |
//! | 5 | time of the first log | 8 | data length |
//! | 9, 13, 17 | end time, end index, their status | 12 | data address |
//! | 18, 22, 26 | the same once more | | |
use vstd::prelude::*;

use crate::codec;
use crate::db;
use crate::db::Geo;
use crate::def;
use crate::def::{SectorStoreStatus, TslStatus, DATA_UNUSED, FAILED_ADDR};
use crate::error::{FdbError, Result};
use crate::flash;
use crate::status;
use crate::storage;
use crate::storage::Medium;

verus! {

/// Magic word of a sector (`T`, `S`, `L`, `0`).
pub const SECTOR_MAGIC_WORD: u32 = 0x304C_5354;

/// Size of a sector header.
pub const SECTOR_HDR_DATA_SIZE: u32 = 32;

/// Offset of the magic word in a sector header.
pub const SECTOR_MAGIC_OFFSET: u32 = 1;

/// Offset of the time of the first log in a sector header.
pub const SECTOR_START_TIME_OFFSET: u32 = 5;

/// Offset of the first end time in a sector header.
pub const SECTOR_END0_TIME_OFFSET: u32 = 9;

/// Offset of the first end index in a sector header.
pub const SECTOR_END0_IDX_OFFSET: u32 = 13;

/// Offset of the status of the first end information in a sector header.
pub const SECTOR_END0_STATUS_OFFSET: u32 = 17;

/// Offset of the second end time in a sector header.
pub const SECTOR_END1_TIME_OFFSET: u32 = 18;

/// Offset of the second end index in a sector header.
pub const SECTOR_END1_IDX_OFFSET: u32 = 22;

/// Offset of the status of the second end information in a sector header.
pub const SECTOR_END1_STATUS_OFFSET: u32 = 26;

/// Size of an index record.
pub const LOG_IDX_DATA_SIZE: u32 = 16;

/// Offset of the time in an index record.
pub const LOG_IDX_TS_OFFSET: u32 = 4;

/// The room of a sector is never counted below this.
pub const REMAIN_FLOOR: i64 = -0x4000_0000_0000_0000;

/// A log as its index record was read: `at` is the address of the record, `data_at`
/// that of its data.
pub struct Log {
    pub status: TslStatus,
    pub time: int,
    pub len: int,
    pub at: int,
    pub data_at: int,
}

/// A sector as it was read: `end` is the time of its last log and `end_idx` the address
/// of that log's record; `end0` and `end1` are the statuses of the two places where
/// these stand; the next record goes to `empty_idx` and its data before `empty_data`.
pub struct TsSec {
    pub check_ok: bool,
    pub status: SectorStoreStatus,
    pub at: int,
    pub start: int,
    pub end: int,
    pub end_idx: int,
    pub end0: TslStatus,
    pub end1: TslStatus,
    pub remain: int,
    pub empty_idx: int,
    pub empty_data: int,
}

/// The state of a time-series database.
pub struct TsState {
    pub m: Medium,
    pub geo: Geo,
    pub oldest: int,
    pub ready: bool,
    pub fixed: bool,
    pub max_len: int,
    pub rollover: bool,
    pub last_time: int,
    pub cur: TsSec,
}

/// Whether a geometry is one that the database works on: it is valid, a sector can
/// hold a sector header, and the addresses of a walk past the end still fit 32 bits.
pub open spec fn geo_ok(geo: Geo) -> bool {
    db::geo_fits(geo) && geo.sec >= 32
}

/// The larger of `x` and 0.
pub open spec fn above_zero(x: int) -> int {
    if x < 0 {
        0
    } else {
        x
    }
}

/// `x`, or the largest address where `x` lies beyond it.
pub open spec fn capped(x: int) -> int {
    if x > 0xFFFF_FFFF {
        0xFFFF_FFFF
    } else {
        x
    }
}

/// `x`, but not below the floor for the room of a sector.
pub open spec fn floored(x: int) -> int {
    if x < REMAIN_FLOOR {
        REMAIN_FLOOR as int
    } else {
        x
    }
}

/// The log that nothing has been read into yet.
pub open spec fn blank_log() -> Log {
    Log {
        status: TslStatus::Unused,
        time: 0,
        len: 0,
        at: FAILED_ADDR as int,
        data_at: FAILED_ADDR as int,
    }
}

/// The sector that nothing has been read into yet.
pub open spec fn blank_sec() -> TsSec {
    TsSec {
        check_ok: false,
        status: SectorStoreStatus::Unused,
        at: 0,
        start: 0,
        end: 0,
        end_idx: 0,
        end0: TslStatus::Unused,
        end1: TslStatus::Unused,
        remain: 0,
        empty_idx: 0,
        empty_data: 0,
    }
}

// ------------------------------------------------------------------------- reading

/// The log whose index record stands at `at`. One that is not written stands for a log
/// of the greatest length.
#[verifier::opaque]
pub open spec fn log_at(m: Medium, max_len: int, at: int) -> Log {
    let idx = m.fetch(at, flash::zeros(16));
    let status = def::tsl_status_of(status::decode_status(idx.subrange(0, 1), 6));
    if status == TslStatus::PreWrite || status == TslStatus::Unused {
        Log { status, time: 0, len: max_len, at, data_at: DATA_UNUSED as int }
    } else {
        Log {
            status,
            time: codec::as_signed(codec::le32(idx, 4)),
            len: codec::le32(idx, 8),
            at,
            data_at: codec::le32(idx, 12),
        }
    }
}

/// The status of the end information at `off` of a sector header.
pub open spec fn end_status(hdr: Seq<u8>, off: int) -> TslStatus {
    def::tsl_status_of(status::decode_status(hdr.subrange(off, off + 1), 6))
}

/// What the sector object `s` holds after reading the sector header at `at`.
pub open spec fn sector_head(m: Medium, geo: Geo, at: int, s: TsSec) -> TsSec {
    let hdr = m.fetch(at, flash::zeros(32));
    let end0 = end_status(hdr, 17);
    let end1 = end_status(hdr, 26);
    if codec::le32(hdr, 1) != SECTOR_MAGIC_WORD {
        TsSec { check_ok: false, at, ..s }
    } else {
        TsSec {
            check_ok: true,
            status: def::store_status_of(status::decode_status(hdr.subrange(0, 1), 4)),
            at,
            start: codec::as_signed(codec::le32(hdr, 5)),
            end: if end0 == TslStatus::Write {
                codec::as_signed(codec::le32(hdr, 9))
            } else if end1 == TslStatus::Write {
                codec::as_signed(codec::le32(hdr, 18))
            } else {
                s.end
            },
            end_idx: if end0 == TslStatus::Write {
                codec::le32(hdr, 13)
            } else if end1 == TslStatus::Write {
                codec::le32(hdr, 22)
            } else {
                s.end_idx
            },
            end0,
            end1,
            remain: geo.sec - 32,
            empty_idx: at + 32,
            empty_data: at + geo.sec,
        }
    }
}

/// What reading a sector header reports.
pub open spec fn head_result(s: TsSec) -> Result<()> {
    if s.check_ok {
        Ok(())
    } else {
        Err(FdbError::InitFailed)
    }
}

/// A walk over the records of the sector `s`, from the one at its free place on, that
/// takes each from the sector's room.
pub open spec fn tally(m: Medium, max_len: int, s: TsSec) -> (TsSec, Result<()>)
    decreases s.remain,
{
    let l = log_at(m, max_len, s.empty_idx);
    if l.status == TslStatus::Unused {
        (s, Ok(()))
    } else {
        let cost = 16 + l.len;
        let s1 = TsSec {
            end: if l.status == TslStatus::PreWrite {
                s.end
            } else {
                l.time
            },
            end_idx: s.empty_idx,
            empty_idx: s.empty_idx + 16,
            empty_data: above_zero(s.empty_data - l.len),
            ..s
        };
        if s.remain > cost && cost > 0 {
            tally(m, max_len, TsSec { remain: s.remain - cost, ..s1 })
        } else {
            (TsSec { remain: 0, ..s1 }, Err(FdbError::ReadErr))
        }
    }
}

/// The sector whose header stands at `at`, with its room found from its records: what
/// the sector object `s` holds after reading it, and what reading it reports.
pub open spec fn sector_full(m: Medium, geo: Geo, max_len: int, at: int, s: TsSec) -> (
    TsSec,
    Result<()>,
) {
    let h = sector_head(m, geo, at, s);
    if h.check_ok && h.status == SectorStoreStatus::Using {
        tally(m, max_len, h)
    } else {
        (h, head_result(h))
    }
}

/// The address of the sector behind the one at `at` on a walk that has come past
/// `traversed` bytes.
pub open spec fn next_sector(geo: Geo, at: int, traversed: int) -> Option<int> {
    if traversed + geo.sec <= geo.max {
        if at + geo.sec < geo.max {
            Some(at + geo.sec)
        } else {
            Some(0)
        }
    } else {
        None
    }
}

/// The address of the sector before the one at `at` on a walk that has come past
/// `traversed` bytes.
pub open spec fn last_sector(geo: Geo, at: int, traversed: int) -> Option<int> {
    if traversed + geo.sec <= geo.max {
        if at >= geo.sec {
            Some(at - geo.sec)
        } else {
            Some(geo.max - geo.sec)
        }
    } else {
        None
    }
}

/// The sectors before and behind a sector are sectors.
pub proof fn lemma_neighbours(geo: Geo, at: int, traversed: int)
    requires
        geo_ok(geo),
        db::is_sector(geo, at),
    ensures
        next_sector(geo, at, traversed) matches Some(a) ==> db::is_sector(geo, a) && traversed
            < geo.max,
        last_sector(geo, at, traversed) matches Some(a) ==> db::is_sector(geo, a) && traversed
            < geo.max,
        at + geo.sec < geo.max ==> db::is_sector(geo, at + geo.sec),
        db::is_sector(geo, 0),
        db::is_sector(geo, geo.max - geo.sec),
        at >= geo.sec ==> db::is_sector(geo, at - geo.sec),
        at == 0 || at >= geo.sec,
{
    db::lemma_geo(geo);
    vstd::arithmetic::div_mod::lemma_mod_add_multiples_vanish(at, geo.sec);
    vstd::arithmetic::div_mod::lemma_small_mod(0, geo.sec as nat);
    vstd::arithmetic::div_mod::lemma_mod_sub_multiples_vanish(at, geo.sec);
    vstd::arithmetic::div_mod::lemma_mod_sub_multiples_vanish(geo.max, geo.sec);
    if at + geo.sec < geo.max {
        db::lemma_aligned(geo, at + geo.sec);
    }
    if 0 < at < geo.sec {
        vstd::arithmetic::div_mod::lemma_small_mod(at as nat, geo.sec as nat);
    }
}

/// The address of the record behind the one at `at` in the sector `s`.
pub open spec fn next_record(s: TsSec, at: int) -> Option<int> {
    if s.status != SectorStoreStatus::Empty && at + 16 <= s.end_idx && at + 16 < FAILED_ADDR {
        Some(at + 16)
    } else {
        None
    }
}

/// The address of the record before the one at `at` in the sector `s`.
pub open spec fn last_record(s: TsSec, at: int) -> Option<int> {
    if s.status != SectorStoreStatus::Empty && at >= s.at + 48 {
        Some(at - 16)
    } else {
        None
    }
}

// ------------------------------------------------------------------------- writing

/// Formatting the sector at `at`.
pub open spec fn format(m: Medium, geo: Geo, at: int) -> (Medium, Result<()>) {
    let m1 = m.erase(at, geo.sec);
    match storage::erase_result(m, at, geo.sec) {
        Err(e) => (m1, Err(e)),
        Ok(_) => {
            let m2 = flash::put_status(m1, at, 1, true);
            match flash::put_status_result(m1, at, 1) {
                Err(e) => (m2, Err(e)),
                Ok(_) => (
                    m2.program(at + 1, codec::le32_bytes(SECTOR_MAGIC_WORD as int), true),
                    storage::program_result(m2, at + 1, 4),
                ),
            }
        },
    }
}

/// The index record of a log, without its status.
pub open spec fn record_tail(time: int, len: int, data_at: int) -> Seq<u8> {
    codec::le32_bytes(codec::as_word(time)) + codec::le32_bytes(len) + codec::le32_bytes(data_at)
}

/// Writing a log to the free place of the sector `s`: the status that says its record
/// is being written, the record, the data, and last the status that says it is written.
pub open spec fn write_log(m: Medium, s: TsSec, blob: Seq<u8>, time: int) -> (Medium, Result<()>) {
    let at = s.empty_idx;
    let data_at = above_zero(s.empty_data - blob.len());
    let m1 = flash::put_status(m, at, 1, false);
    match flash::put_status_result(m, at, 1) {
        Err(e) => (m1, Err(e)),
        Ok(_) => {
            let m2 = m1.program(at + 4, record_tail(time, blob.len() as int, data_at), false);
            match storage::program_result(m1, at + 4, 12) {
                Err(e) => (m2, Err(e)),
                Ok(_) => {
                    let m3 = flash::put_data(m2, data_at, blob);
                    match flash::put_data_result(m2, data_at, blob) {
                        Err(e) => (m3, Err(e)),
                        Ok(_) => (
                            flash::put_status(m3, at, 2, true),
                            flash::put_status_result(m3, at, 2),
                        ),
                    }
                },
            }
        },
    }
}

/// Writing the end information of the sector at `at` to the place with its status at
/// `status_off`, its time at `time_off` and its index at `idx_off`.
pub open spec fn put_end(
    m: Medium,
    at: int,
    status_off: int,
    time_off: int,
    idx_off: int,
    time: int,
    idx: int,
) -> (Medium, Result<()>) {
    let m1 = flash::put_status(m, at + status_off, 1, false);
    match flash::put_status_result(m, at + status_off, 1) {
        Err(e) => (m1, Err(e)),
        Ok(_) => {
            let m2 = m1.program(at + time_off, codec::le32_bytes(codec::as_word(time)), false);
            match storage::program_result(m1, at + time_off, 4) {
                Err(e) => (m2, Err(e)),
                Ok(_) => {
                    let m3 = m2.program(at + idx_off, codec::le32_bytes(idx), false);
                    match storage::program_result(m2, at + idx_off, 4) {
                        Err(e) => (m3, Err(e)),
                        Ok(_) => (
                            flash::put_status(m3, at + status_off, 2, true),
                            flash::put_status_result(m3, at + status_off, 2),
                        ),
                    }
                },
            }
        },
    }
}

/// Closing the sector `s`: its end information, in the first place that is free, and
/// the status that says it is full.
pub open spec fn close_sector(m: Medium, s: TsSec, last_time: int) -> (Medium, Result<()>) {
    let (m1, r1) = if s.end0 == TslStatus::Unused {
        put_end(m, s.at, 17, 9, 13, last_time, s.empty_idx - 16)
    } else if s.end1 == TslStatus::Unused {
        put_end(m, s.at, 26, 18, 22, last_time, s.empty_idx - 16)
    } else {
        (m, Ok(()))
    };
    match r1 {
        Err(e) => (m1, Err(e)),
        Ok(_) => (flash::put_status(m1, s.at, 3, true), flash::put_status_result(m1, s.at, 3)),
    }
}

/// Going on to the sector at `at`: one that is not empty is formatted, and the sector
/// behind it is then the oldest.
pub open spec fn enter_sector(st: TsState, at: int) -> (TsState, Result<()>) {
    let s = sector_head(st.m, st.geo, at, blank_sec());
    if s.status == SectorStoreStatus::Empty {
        (TsState { cur: s, ..st }, Ok(()))
    } else {
        let oldest = if at + st.geo.sec < st.geo.max {
            at + st.geo.sec
        } else {
            0
        };
        let (m1, r) = format(st.m, st.geo, at);
        match r {
            Err(e) => (TsState { m: m1, cur: s, oldest, ..st }, Err(e)),
            Ok(_) => (
                TsState {
                    m: m1,
                    cur: sector_head(m1, st.geo, at, blank_sec()),
                    oldest,
                    ..st
                },
                Ok(()),
            ),
        }
    }
}

/// Closing the current sector and going on to the next one; behind the last sector
/// only where the database rolls over.
pub open spec fn turn_page(st: TsState) -> (TsState, Result<()>) {
    let (m1, r) = close_sector(st.m, st.cur, st.last_time);
    match r {
        Err(e) => (TsState { m: m1, ..st }, Err(e)),
        Ok(_) => {
            let st1 = TsState {
                m: m1,
                cur: TsSec { status: SectorStoreStatus::Full, ..st.cur },
                ..st
            };
            if st.cur.at + st.geo.sec < st.geo.max {
                enter_sector(st1, st.cur.at + st.geo.sec)
            } else if st.rollover {
                enter_sector(st1, 0)
            } else {
                (st1, Err(FdbError::SavedFull))
            }
        },
    }
}

/// Taking an empty current sector into use.
pub open spec fn begin_sector(st: TsState, time: int) -> (TsState, Result<()>) {
    if st.cur.status == SectorStoreStatus::Empty {
        let cur = TsSec { status: SectorStoreStatus::Using, start: time, ..st.cur };
        let m1 = flash::put_status(st.m, cur.at, 2, true);
        match flash::put_status_result(st.m, cur.at, 2) {
            Err(e) => (TsState { m: m1, cur, ..st }, Err(e)),
            Ok(_) => (
                TsState {
                    m: m1.program(cur.at + 5, codec::le32_bytes(codec::as_word(time)), true),
                    cur,
                    ..st
                },
                storage::program_result(m1, cur.at + 5, 4),
            ),
        }
    } else {
        (st, Ok(()))
    }
}

/// Making room in the current sector for a log of `size` bytes with this time.
pub open spec fn make_room(st: TsState, size: int, time: int) -> (TsState, Result<()>) {
    if st.cur.status == SectorStoreStatus::Using && st.cur.remain < 16 + size {
        let (st1, r) = turn_page(st);
        match r {
            Err(e) => (st1, Err(e)),
            Ok(_) => begin_sector(st1, time),
        }
    } else if st.cur.status == SectorStoreStatus::Full {
        (st, Err(FdbError::SavedFull))
    } else {
        begin_sector(st, time)
    }
}

/// Appending a log with this data and time.
pub open spec fn append(st: TsState, blob: Seq<u8>, time: int) -> (TsState, Result<()>) {
    if blob.len() > st.max_len || time <= st.last_time {
        (st, Err(FdbError::WriteErr))
    } else {
        let (st1, r1) = make_room(st, blob.len() as int, time);
        match r1 {
            Err(e) => (st1, Err(e)),
            Ok(_) => {
                let (m2, r2) = write_log(st1.m, st1.cur, blob, time);
                match r2 {
                    Err(e) => (TsState { m: m2, ..st1 }, Err(e)),
                    Ok(_) => (
                        TsState {
                            m: m2,
                            cur: TsSec {
                                end_idx: st1.cur.empty_idx,
                                end: time,
                                empty_idx: capped(st1.cur.empty_idx + 16),
                                empty_data: above_zero(st1.cur.empty_data - blob.len()),
                                remain: floored(st1.cur.remain - (16 + blob.len())),
                                ..st1.cur
                            },
                            last_time: time,
                            ..st1
                        },
                        Ok(()),
                    ),
                }
            },
        }
    }
}

// ----------------------------------------------------------------------- collecting

/// The sector that a walk comes to at `at`: what stands there, or the current sector
/// where a sector in use stands there.
pub open spec fn sector_here(st: TsState, at: int) -> TsSec {
    let s = sector_head(st.m, st.geo, at, blank_sec());
    if s.check_ok && s.status == SectorStoreStatus::Using {
        st.cur
    } else {
        s
    }
}

/// Whether the sector at `at` holds logs.
pub open spec fn has_logs(st: TsState, at: int) -> bool {
    let s = sector_head(st.m, st.geo, at, blank_sec());
    s.check_ok && (s.status == SectorStoreStatus::Using || s.status == SectorStoreStatus::Full)
}

/// The logs of the sector `s` from the record at `at` on.
pub open spec fn logs_from(m: Medium, max_len: int, s: TsSec, at: int) -> Seq<Log>
    decreases s.end_idx - at,
{
    let l = log_at(m, max_len, at);
    match next_record(s, at) {
        None => seq![l],
        Some(a) => seq![l] + logs_from(m, max_len, s, a),
    }
}

/// All logs, on a walk from the sector at `at` on that has come past `traversed` bytes.
pub open spec fn collect_from(st: TsState, at: int, traversed: int) -> Seq<Log>
    decreases st.geo.max - traversed,
{
    let s = sector_here(st, at);
    let here = if has_logs(st, at) {
        logs_from(st.m, st.max_len, s, s.at + 32)
    } else {
        Seq::empty()
    };
    match next_sector(st.geo, s.at, traversed + st.geo.sec) {
        None => here,
        Some(a) => {
            if st.geo.sec <= 0 || traversed >= st.geo.max {
                here
            } else {
                here + collect_from(st, a, traversed + st.geo.sec)
            }
        },
    }
}

/// All logs in storage order.
pub open spec fn collect(st: TsState) -> Seq<Log> {
    collect_from(st, st.oldest, 0)
}

/// The logs of the sector `s` from the record at `at` down.
pub open spec fn logs_down(m: Medium, max_len: int, s: TsSec, at: int) -> Seq<Log>
    decreases at,
{
    let l = log_at(m, max_len, at);
    match last_record(s, at) {
        None => seq![l],
        Some(a) => if a >= 0 {
            seq![l] + logs_down(m, max_len, s, a)
        } else {
            seq![l]
        },
    }
}

/// All logs, the last first, on a walk from the sector at `at` down that has come past
/// `traversed` bytes and ends at a sector that holds nothing.
pub open spec fn collect_down(st: TsState, at: int, traversed: int) -> Seq<Log>
    decreases st.geo.max - traversed,
{
    let h = sector_head(st.m, st.geo, at, blank_sec());
    let s = sector_here(st, at);
    if h.check_ok && !has_logs(st, at) {
        Seq::empty()
    } else {
        let here = if has_logs(st, at) {
            logs_down(st.m, st.max_len, s, s.end_idx)
        } else {
            Seq::empty()
        };
        match last_sector(st.geo, s.at, traversed + st.geo.sec) {
            None => here,
            Some(a) => {
                if st.geo.sec <= 0 || traversed >= st.geo.max {
                    here
                } else {
                    here + collect_down(st, a, traversed + st.geo.sec)
                }
            },
        }
    }
}

/// All logs in reverse storage order.
pub open spec fn collect_reverse(st: TsState) -> Seq<Log> {
    collect_down(st, st.cur.at, 0)
}

// ------------------------------------------------------------------------- by time

/// `x` rounded up to a multiple of `a`; 0 where it is not positive.
pub open spec fn round_up(x: int, a: int) -> int {
    if x <= 0 {
        0
    } else {
        ((x + a - 1) / a) * a
    }
}

/// The address that `x` stands for.
pub open spec fn address(x: int) -> int {
    x % 0x1_0000_0000
}

/// The middle record between `start` and `end`.
pub open spec fn middle(start: int, end: int) -> int {
    start + (if end < start {
        0
    } else {
        round_up((end - start) / 2, 16)
    })
}

/// Where the search for `from` ends that has come to `start`: one record further down
/// on the way back, where the log there comes later than `from`.
pub open spec fn settle(m: Medium, max_len: int, start: int, from: int, to: int) -> int {
    if from > to && log_at(m, max_len, address(start)).time > from {
        address(start - 16)
    } else {
        address(start)
    }
}

/// The record to start with for the logs from the time `from` on (or back), by binary
/// search among the records from `start` to `end`.
pub open spec fn search(m: Medium, max_len: int, start: int, end: int, from: int, to: int) -> int
    decreases
            (if end < start {
                0
            } else {
                end - start + 1
            }),
{
    let mid = middle(start, end);
    let l = log_at(m, max_len, address(mid));
    if l.time < from {
        if mid + 16 > end {
            settle(m, max_len, mid + 16, from, to)
        } else {
            search(m, max_len, mid + 16, end, from, to)
        }
    } else if l.time > from {
        if start > mid - 16 {
            settle(m, max_len, start, from, to)
        } else {
            search(m, max_len, start, mid - 16, from, to)
        }
    } else {
        address(mid)
    }
}

/// The record of the sector `s` to start with for the logs from the time `from` on (or
/// back). On the way back it is none behind the last record.
pub open spec fn first_record(m: Medium, max_len: int, s: TsSec, from: int, to: int) -> int {
    let a = search(m, max_len, s.at + 32, s.end_idx, from, to);
    if from > to && a > s.end_idx {
        s.end_idx
    } else {
        a
    }
}

/// Whether a time lies between `from` and `to`, whichever comes first.
pub open spec fn in_range(time: int, from: int, to: int) -> bool {
    (from <= time <= to) || (to <= time <= from && from > to)
}

/// The logs between `from` and `to` among the records of the sector `s` from `at` on
/// (or down), and whether a log beyond them was come to.
pub open spec fn scan(m: Medium, max_len: int, s: TsSec, at: int, from: int, to: int) -> (
    Seq<Log>,
    bool,
)
    decreases
            (if from <= to {
                s.end_idx - at
            } else {
                at
            }),
{
    let l = log_at(m, max_len, at);
    if l.status != TslStatus::Unused && !in_range(l.time, from, to) {
        (Seq::empty(), true)
    } else {
        let here = if l.status != TslStatus::Unused {
            seq![l]
        } else {
            Seq::empty()
        };
        let next = if from <= to {
            next_record(s, at)
        } else {
            last_record(s, at)
        };
        match next {
            None => (here, false),
            Some(a) => {
                if from > to && a < 0 {
                    (here, false)
                } else {
                    let (rest, beyond) = scan(m, max_len, s, a, from, to);
                    (here + rest, beyond)
                }
            },
        }
    }
}

/// Whether the logs from the time `from` on (or back) start in the sector `s`; `first`
/// says whether it is the first on the way.
pub open spec fn starts_in(s: TsSec, first: bool, from: int, to: int) -> bool {
    if from <= to {
        (first && from <= s.start) || from <= s.end
    } else {
        (first && from >= s.end) || from >= s.start
    }
}

/// The logs between `from` and `to`, on a walk from the sector at `at` on (or down)
/// that began at `first` and has come past `traversed` bytes; `found` says whether it
/// has come to the sector where they start.
pub open spec fn by_time_from(
    st: TsState,
    first: int,
    at: int,
    traversed: int,
    found: bool,
    from: int,
    to: int,
) -> Seq<Log>
    decreases st.geo.max - traversed,
{
    let h = sector_head(st.m, st.geo, at, blank_sec());
    let s = sector_here(st, at);
    let hit = has_logs(st, at) && (found || starts_in(s, at == first, from, to));
    let (here, beyond) = if hit {
        scan(
            st.m,
            st.max_len,
            s,
            first_record(st.m, st.max_len, s, from, to),
            from,
            to,
        )
    } else {
        (Seq::empty(), false)
    };
    if beyond || (h.check_ok && h.status == SectorStoreStatus::Empty) {
        here
    } else {
        let next = if from <= to {
            next_sector(st.geo, s.at, traversed + st.geo.sec)
        } else {
            last_sector(st.geo, s.at, traversed + st.geo.sec)
        };
        match next {
            None => here,
            Some(a) => {
                if st.geo.sec <= 0 || traversed >= st.geo.max {
                    here
                } else {
                    here + by_time_from(
                        st,
                        first,
                        a,
                        traversed + st.geo.sec,
                        found || hit,
                        from,
                        to,
                    )
                }
            },
        }
    }
}

/// The logs whose time lies between `from` and `to`, in reverse where `from` is later.
pub open spec fn by_time(st: TsState, from: int, to: int) -> Seq<Log> {
    let first = if from <= to {
        st.oldest
    } else {
        st.cur.at
    };
    by_time_from(st, first, first, 0, false, from, to)
}

/// How many of the logs have this status.
pub open spec fn count_status(logs: Seq<Log>, status: TslStatus) -> int
    decreases logs.len(),
{
    if logs.len() == 0 {
        0
    } else {
        count_status(logs.drop_last(), status) + (if logs.last().status == status {
            1int
        } else {
            0
        })
    }
}

/// The data of the log `l`: what a read of it gives, nothing where it fails.
pub open spec fn data_of(m: Medium, l: Log) -> Seq<u8> {
    if m.holds(l.data_at, l.len) {
        m.bytes.subrange(l.data_at, l.data_at + l.len)
    } else {
        Seq::empty()
    }
}

// ------------------------------------------------------------------ cleaning, opening

/// Formatting the sectors on a walk from `at` on that has come past `traversed` bytes.
pub open spec fn format_from(m: Medium, geo: Geo, at: int, traversed: int) -> Medium
    decreases geo.max - traversed,
{
    let m1 = format(m, geo, at).0;
    match next_sector(geo, at, traversed + geo.sec) {
        None => m1,
        Some(a) => {
            if geo.sec <= 0 || traversed >= geo.max {
                m1
            } else {
                format_from(m1, geo, a, traversed + geo.sec)
            }
        },
    }
}

/// Erasing all data.
pub open spec fn clean(st: TsState) -> TsState {
    let m1 = format_from(st.m, st.geo, 0, 0);
    TsState {
        m: m1,
        oldest: 0,
        last_time: 0,
        cur: sector_head(m1, st.geo, 0, blank_sec()),
        ..st
    }
}

/// What a survey of the sectors has found: the sector to go on with, how many sectors
/// are empty, the last of them, and whether the survey failed.
pub struct Survey {
    pub cur: TsSec,
    pub empty: int,
    pub empty_at: int,
    pub failed: bool,
}

/// A survey of the sectors on a walk from `at` on that has come past `traversed` bytes.
/// It fails at a bad header, and where more than one sector could be gone on with.
pub open spec fn survey_from(
    m: Medium,
    geo: Geo,
    max_len: int,
    at: int,
    traversed: int,
    v: Survey,
) -> Survey
    decreases geo.max - traversed,
{
    let s = sector_full(m, geo, max_len, at, blank_sec()).0;
    let none = v.cur.at == DATA_UNUSED;
    if !s.check_ok || (s.status == SectorStoreStatus::Using && !none) {
        Survey { failed: true, ..v }
    } else {
        let v1 = if s.status == SectorStoreStatus::Using {
            Survey { cur: s, ..v }
        } else if s.status == SectorStoreStatus::Empty {
            Survey {
                cur: if v.empty == 0 && none {
                    s
                } else {
                    v.cur
                },
                empty: v.empty + 1,
                empty_at: at,
                ..v
            }
        } else {
            v
        };
        match next_sector(geo, at, traversed + geo.sec) {
            None => v1,
            Some(a) => {
                if geo.sec <= 0 || traversed >= geo.max {
                    v1
                } else {
                    survey_from(m, geo, max_len, a, traversed + geo.sec, v1)
                }
            },
        }
    }
}

/// The survey of all sectors.
pub open spec fn survey(m: Medium, geo: Geo, max_len: int) -> Survey {
    survey_from(
        m,
        geo,
        max_len,
        0,
        0,
        Survey {
            cur: TsSec { at: DATA_UNUSED as int, ..blank_sec() },
            empty: 0,
            empty_at: 0,
            failed: false,
        },
    )
}

/// Reading the current sector, and the time of the last log.
pub open spec fn resume(st: TsState) -> TsState {
    let cur = sector_full(st.m, st.geo, st.max_len, st.cur.at, blank_sec()).0;
    let before = if cur.at == 0 {
        st.geo.max - st.geo.sec
    } else {
        cur.at - st.geo.sec
    };
    TsState {
        cur,
        last_time: if cur.status == SectorStoreStatus::Using || cur.status
            == SectorStoreStatus::Full {
            cur.end
        } else if cur.status == SectorStoreStatus::Empty && st.oldest != cur.at {
            sector_head(st.m, st.geo, before, blank_sec()).end
        } else {
            st.last_time
        },
        ..st
    }
}

/// Loading the database from its medium: what fails the survey is formatted, unless it
/// may not be. Where every sector is full the last one is the current one.
pub open spec fn load(st: TsState) -> (TsState, Result<()>) {
    let v = survey(st.m, st.geo, st.max_len);
    let st1 = TsState { cur: v.cur, ..st };
    if v.failed {
        if st.fixed {
            (st1, Err(FdbError::ReadErr))
        } else {
            (resume(clean(st1)), Ok(()))
        }
    } else {
        let cur = if v.empty == 0 && v.cur.at == DATA_UNUSED {
            TsSec { at: st.geo.max - st.geo.sec, ..v.cur }
        } else {
            v.cur
        };
        let latest = if v.empty > 0 {
            v.empty_at
        } else {
            cur.at
        };
        let oldest = if latest + st.geo.sec >= st.geo.max {
            0
        } else {
            latest + st.geo.sec
        };
        (resume(TsState { oldest, cur, ..st1 }), Ok(()))
    }
}

/// Opening a database on the medium `m`: the database, or the error that opening reports.
pub open spec fn open_db(m: Medium, geo: Geo, max_len: int, fixed: bool) -> (TsState, Result<()>) {
    let (st1, r) = load(
        TsState {
            m,
            geo,
            oldest: DATA_UNUSED as int,
            ready: false,
            fixed,
            max_len,
            rollover: true,
            last_time: 0,
            cur: TsSec { at: DATA_UNUSED as int, ..blank_sec() },
        },
    );
    (TsState { ready: r is Ok, ..st1 }, r)
}

/// How many logs of the greatest length the database can hold.
pub open spec fn max_blobs(geo: Geo, max_len: int) -> int {
    (geo.max / geo.sec) * ((geo.sec - 32) / (16 + max_len))
}

/// What holds of the current sector of every database: it is a sector; where it was
/// read its records lie behind its header, and its room is what lies between records
/// and data.
pub open spec fn cur_ok(geo: Geo, s: TsSec) -> bool {
    &&& db::is_sector(geo, s.at)
    &&& s.status != SectorStoreStatus::Unused ==> s.at + 32 <= s.empty_idx
    &&& REMAIN_FLOOR <= s.remain <= geo.sec
}

/// What holds of every database: its geometry, that the oldest sector is one, and what
/// holds of the current sector.
pub open spec fn state_ok(st: TsState) -> bool {
    &&& geo_ok(st.geo)
    &&& db::is_sector(st.geo, st.oldest)
    &&& cur_ok(st.geo, st.cur)
    &&& st.max_len < st.geo.sec
}

} // verus!
