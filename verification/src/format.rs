//! How the databases lie on their medium, byte by byte.
use vstd::prelude::*;

use crate::codec;
use crate::crc32;
use crate::db;
use crate::db::Geo;
use crate::def;
use crate::def::{KvStatus, SectorDirtyStatus, SectorStoreStatus, TslStatus};
use crate::flash;
use crate::kv_gc as gc;
use crate::kv_image as kv;
use crate::kv_image::Sect;
use crate::kv_laws as laws;
use crate::kv_model;
use crate::kv_model::KvState;
use crate::status;
use crate::storage::Medium;
use crate::ts_image as ts;
use crate::ts_image::Page;
use crate::ts_model;

verus! {

/// The number that the four bytes from `p` on make, the least significant one first.
pub open spec fn word(bytes: Seq<u8>, p: int) -> int {
    bytes[p] + 0x100 * bytes[p + 1] + 0x1_0000 * bytes[p + 2] + 0x100_0000 * bytes[p + 3]
}

/// The byte that says which status a record has.
pub open spec fn record_mark(s: KvStatus) -> u8 {
    match s {
        KvStatus::Unused => 0xFF,
        KvStatus::PreWrite => 0x7F,
        KvStatus::Write => 0x3F,
        KvStatus::PreDelete => 0x1F,
        KvStatus::Deleted => 0x0F,
        KvStatus::ErrHdr => 0x07,
    }
}

/// The byte that says which status a log has.
pub open spec fn log_mark(s: TslStatus) -> u8 {
    match s {
        TslStatus::Unused => 0xFF,
        TslStatus::PreWrite => 0x7F,
        TslStatus::Write => 0x3F,
        TslStatus::UserStatus1 => 0x1F,
        TslStatus::Deleted => 0x0F,
        TslStatus::UserStatus2 => 0x07,
    }
}

/// The byte that says how far a sector is filled.
pub open spec fn store_mark(s: SectorStoreStatus) -> u8 {
    match s {
        SectorStoreStatus::Unused => 0xFF,
        SectorStoreStatus::Empty => 0x7F,
        SectorStoreStatus::Using => 0x3F,
        SectorStoreStatus::Full => 0x1F,
    }
}

/// The byte that says whether a sector is dirty.
pub open spec fn dirty_mark(s: SectorDirtyStatus) -> u8 {
    match s {
        SectorDirtyStatus::Unused => 0xFF,
        SectorDirtyStatus::False => 0x7F,
        SectorDirtyStatus::True => 0x3F,
        SectorDirtyStatus::Gc => 0x1F,
    }
}

/// Whether a record with this status, name and value lies at `p`: 24 bytes of header, the name,
/// the value. The CRC is the one of all that follows it.
pub open spec fn record_lies(
    bytes: Seq<u8>,
    p: int,
    s: KvStatus,
    name: Seq<u8>,
    value: Seq<u8>,
) -> bool {
    let end = p + 24 + name.len() + value.len();
    &&& 0 <= p && end <= bytes.len()
    &&& bytes[p] == record_mark(s)
    &&& bytes[p + 1] == 0xFF && bytes[p + 2] == 0xFF && bytes[p + 3] == 0xFF
    &&& bytes[p + 4] == 0x4B && bytes[p + 5] == 0x56 && bytes[p + 6] == 0x30 && bytes[p + 7] == 0x30
    &&& word(bytes, p + 8) == end - p
    &&& word(bytes, p + 12) == crc32::crc32(0, bytes.subrange(p + 16, end))
    &&& bytes[p + 16] == name.len()
    &&& bytes[p + 17] == 0xFF && bytes[p + 18] == 0xFF && bytes[p + 19] == 0xFF
    &&& word(bytes, p + 20) == value.len()
    &&& bytes.subrange(p + 24, p + 24 + name.len()) == name
    &&& bytes.subrange(p + 24 + name.len(), end) == value
}

proof fn lemma_marks()
    ensures
        forall|s: KvStatus| #[trigger] record_mark(s) == status::status_byte(def::kv_index_of(s)),
        forall|s: TslStatus| #[trigger] log_mark(s) == status::status_byte(def::tsl_index_of(s)),
        forall|s: SectorStoreStatus| #[trigger]
            store_mark(s) == status::status_byte(def::store_index_of(s)),
        forall|s: SectorDirtyStatus| #[trigger]
            dirty_mark(s) == status::status_byte(def::dirty_index_of(s)),
{
    kv::lemma_status_bytes();
}

/// A record lies on the medium with its status, its lengths, its CRC, its name and its value.
pub proof fn how_a_record_lies(m: Medium, geo: Geo, d: Map<int, Sect>, x: int, j: int)
    requires
        kv::holds_image(m, geo, d),
        db::is_sector(geo, x),
        0 <= j < d[x].recs.len(),
        d[x].recs[j].sound,
    ensures
        record_lies(
            m.bytes,
            kv::place(x, d[x].recs, j),
            d[x].recs[j].status,
            d[x].recs[j].name,
            d[x].recs[j].value,
        ),
        x + 16 <= kv::place(x, d[x].recs, j) < x + geo.sec,
{
    lemma_marks();
    let r = d[x].recs[j];
    let p = kv::place(x, d[x].recs, j);
    let bytes = m.bytes;
    assert(kv::sector_at(bytes, geo, x, d[x]));
    kv::lemma_place(bytes, geo, x, d[x], j);
    kv::lemma_header_words(bytes, p, r);
    kv::lemma_sound_crc(bytes, p, r);
    kv::lemma_magic_bytes(bytes, p + 4);
    let lens = bytes.subrange(p + 16, p + 20);
    assert(lens[1] == bytes[p + 17] && lens[2] == bytes[p + 18] && lens[3] == bytes[p + 19]);
    let end = p + kv::body(r);
    let a = bytes.subrange(p + 16, p + 20);
    let b = bytes.subrange(p + 20, p + 24);
    let c = bytes.subrange(p + 24, end);
    crc32::crc32_chains(0, a, b);
    crc32::crc32_chains(0, a + b, c);
    assert(a + b + c =~= bytes.subrange(p + 16, end));
    assert(record_mark(r.status) == bytes[p]);
}

/// A sector of the key-value database starts with its two statuses and the letters `FDB0`; an
/// empty one is erased behind that.
pub proof fn how_a_sector_starts(m: Medium, geo: Geo, d: Map<int, Sect>, x: int)
    requires
        kv::holds_image(m, geo, d),
        db::is_sector(geo, x),
    ensures
        m.bytes[x] == store_mark(d[x].store),
        m.bytes[x + 1] == dirty_mark(d[x].dirty),
        m.bytes[x + 4] == 0x46 && m.bytes[x + 5] == 0x44 && m.bytes[x + 6] == 0x42 && m.bytes[x + 7]
            == 0x30,
        m.bytes[x + 8] == 0xFF && m.bytes[x + 9] == 0xFF && m.bytes[x + 10] == 0xFF && m.bytes[x
            + 11] == 0xFF,
        d[x].store == SectorStoreStatus::Empty <==> d[x].recs.len() == 0,
        d[x].store == SectorStoreStatus::Empty ==> forall|q: int|
            x + 16 <= q < x + geo.sec ==> m.bytes[q] == 0xFF,
{
    lemma_marks();
    assert(kv::sector_at(m.bytes, geo, x, d[x]));
    kv::lemma_open_sector(m.bytes, geo, x, d[x]);
    assert(store_mark(d[x].store) == m.bytes[x]);
    assert(dirty_mark(d[x].dirty) == m.bytes[x + 1]);
    assert(codec::le32(m.bytes, x + 4) == 0x3042_4446);
    assert(codec::le32(m.bytes, x + 8) == 0xFFFF_FFFF);
}

/// Setting a name to a value leaves a live record with that name and value on the medium.
pub proof fn what_setting_writes(st: KvState, d: Map<int, Sect>, key: Seq<u8>, value: Seq<u8>) -> (p:
    int)
    requires
        laws::fair(st, d),
        kv_model::set_value(st, key, value).1 is Ok,
    ensures
        record_lies(
            kv_model::set_value(st, key, value).0.m.bytes,
            p,
            KvStatus::Write,
            key,
            value,
        ),
{
    let d1 = laws::set_then_get(st, d, key, value);
    let st1 = kv_model::set_value(st, key, value).0;
    laws::lookup_gives_the_live_value(st1, d1, key);
    assert(gc::has_live(st1.geo, d1, key, value));
    let (a, j) = choose|a: int, j: int| gc::live_as(st1.geo, d1, a, j, key, value);
    how_a_record_lies(st1.m, st1.geo, d1, a, j);
    kv::place(a, d1[a].recs, j)
}

/// A log lies in two places of its sector: its index record of 16 bytes behind those before it,
/// with its status, its time, its length and where its data is, and its data at the end of the
/// sector, before the data of those before it.
pub proof fn how_a_log_lies(m: Medium, geo: Geo, d: Map<int, Page>, x: int, i: int)
    requires
        ts::holds_image(m, geo, d),
        db::is_sector(geo, x),
        0 <= i < d[x].recs.len(),
    ensures
        ({
            let e = d[x].recs[i];
            let p = x + 32 + 16 * i;
            let b = word(m.bytes, p + 12);
            &&& m.bytes[p] == log_mark(e.status)
            &&& word(m.bytes, p + 4) == e.time
            &&& word(m.bytes, p + 8) == e.data.len()
            &&& p + 16 <= b
            &&& b + e.data.len() == (if i == 0 {
                x + geo.sec
            } else {
                word(m.bytes, p - 16 + 12)
            })
            &&& m.bytes.subrange(b, b + e.data.len()) == e.data
        }),
{
    lemma_marks();
    assert(ts::page_at(m.bytes, geo, x, d[x]));
    ts::lemma_entry(m.bytes, geo, x, d[x], i);
    let e = d[x].recs[i];
    assert(log_mark(e.status) == m.bytes[x + 32 + 16 * i]);
    if i > 0 {
        ts::lemma_entry(m.bytes, geo, x, d[x], i - 1);
        assert(ts::total(d[x].recs, i + 1) == ts::total(d[x].recs, i) + e.data.len());
    } else {
        assert(ts::total(d[x].recs, 1) == ts::total(d[x].recs, 0) + e.data.len());
    }
}

/// A sector of the time-series database starts with its status, the letters `TSL0` and the
/// time of its first log. One that is full goes on with the time of its last log, where that
/// log's index record is, and a status that says that this is written. An empty one is erased.
pub proof fn how_a_log_sector_starts(m: Medium, geo: Geo, d: Map<int, Page>, x: int)
    requires
        ts::holds_image(m, geo, d),
        db::is_sector(geo, x),
    ensures
        ({
            let n = d[x].recs.len() as int;
            &&& m.bytes[x] == store_mark(d[x].store)
            &&& m.bytes[x + 1] == 0x54 && m.bytes[x + 2] == 0x53 && m.bytes[x + 3] == 0x4C
                && m.bytes[x + 4] == 0x30
            &&& n > 0 ==> word(m.bytes, x + 5) == d[x].recs[0].time
            &&& d[x].store == SectorStoreStatus::Full ==> word(m.bytes, x + 9) == d[x].recs[n - 1].time
                && word(m.bytes, x + 13) == x + 32 + 16 * (n - 1) && m.bytes[x + 17] == 0x3F
            &&& d[x].store == SectorStoreStatus::Empty <==> n == 0
            &&& n == 0 ==> forall|q: int| x + 5 <= q < x + geo.sec ==> m.bytes[q] == 0xFF
        }),
{
    lemma_marks();
    kv::lemma_status_bytes();
    assert(ts::page_at(m.bytes, geo, x, d[x]));
    ts::lemma_open_page(m.bytes, geo, x, d[x]);
    assert(store_mark(d[x].store) == m.bytes[x]);
    assert(codec::le32(m.bytes, x + 1) == 0x304C_5354);
    if d[x].recs.len() == 0 {
        assert(ts::total(d[x].recs, 0) == 0);
        assert forall|q: int| x + 5 <= q < x + geo.sec implies m.bytes[q] == 0xFF by {
            if q < x + 32 {
            } else {
                assert(ts::idx_at(x, 0) <= q < ts::idx_at(x, 0) + ts::gap(geo, d[x]));
            }
        }
    }
}

/// A number of 32 bits as a signed one.
pub open spec fn signed(w: int) -> int {
    if w < 0x8000_0000 {
        w
    } else {
        w - 0x1_0000_0000
    }
}

proof fn lemma_log_status(hdr: Seq<u8>, off: int, s: TslStatus)
    requires
        0 <= off < hdr.len(),
        hdr[off] == log_mark(s),
    ensures
        def::tsl_status_of(status::decode_status(hdr.subrange(off, off + 1), 6)) == s,
{
    lemma_marks();
    assert(log_mark(s) == hdr[off]);
    assert(hdr.subrange(off, off + 1) =~= seq![status::status_byte(def::tsl_index_of(s))]);
    status::status_round_trip_one_byte(def::tsl_index_of(s), 6);
}

/// How an index record is read, whatever else the medium holds: its status, its time as a
/// signed number, its length and where its data is. One that is not written, or was being
/// written, stands for a log of the greatest length without a time and without data.
pub proof fn how_an_index_record_is_read(m: Medium, max_len: int, at: int, s: TslStatus)
    requires
        0 <= at,
        at + 16 <= m.bytes.len(),
        m.bytes[at] == log_mark(s),
    ensures
        ({
            let l = ts_model::log_at(m, max_len, at);
            &&& l.status == s
            &&& l.at == at
            &&& s == TslStatus::Unused || s == TslStatus::PreWrite ==> l.time == 0 && l.len == max_len
                && l.data_at == 0xFFFF_FFFF
            &&& s != TslStatus::Unused && s != TslStatus::PreWrite ==> l.time == signed(
                word(m.bytes, at + 4),
            ) && l.len == word(m.bytes, at + 8) && l.data_at == word(m.bytes, at + 12)
        }),
{
    reveal(ts_model::log_at);
    let idx = m.fetch(at, flash::zeros(16));
    assert(idx =~= m.bytes.subrange(at, at + 16));
    assert(idx[0] == m.bytes[at]);
    lemma_log_status(idx, 0, s);
    assert(codec::le32(idx, 4) == word(m.bytes, at + 4));
    assert(codec::le32(idx, 8) == word(m.bytes, at + 8));
    assert(codec::le32(idx, 12) == word(m.bytes, at + 12));
}

/// How the header of a sector of logs is read: the letters `TSL0` make it one, and its last log
/// is what the first of its two places for that says, or the second where the first is not
/// written.
pub proof fn how_a_log_sector_is_read(
    m: Medium,
    geo: Geo,
    x: int,
    store: SectorStoreStatus,
    first: TslStatus,
    second: TslStatus,
)
    requires
        0 <= x,
        x + 32 <= m.bytes.len(),
        m.bytes[x] == store_mark(store),
        m.bytes[x + 17] == log_mark(first),
        m.bytes[x + 26] == log_mark(second),
    ensures
        ({
            let h = ts_model::sector_head(m, geo, x, ts_model::blank_sec());
            &&& h.check_ok <==> m.bytes[x + 1] == 0x54 && m.bytes[x + 2] == 0x53 && m.bytes[x + 3]
                == 0x4C && m.bytes[x + 4] == 0x30
            &&& h.check_ok ==> {
                &&& h.status == store
                &&& h.start == signed(word(m.bytes, x + 5))
                &&& first == TslStatus::Write ==> h.end == signed(word(m.bytes, x + 9)) && h.end_idx
                    == word(m.bytes, x + 13)
                &&& first != TslStatus::Write && second == TslStatus::Write ==> h.end == signed(
                    word(m.bytes, x + 18),
                ) && h.end_idx == word(m.bytes, x + 22)
                &&& h.remain == geo.sec - 32
                &&& h.empty_idx == x + 32
                &&& h.empty_data == x + geo.sec
            }
        }),
{
    lemma_marks();
    let hdr = m.fetch(x, flash::zeros(32));
    assert(hdr =~= m.bytes.subrange(x, x + 32));
    assert(hdr[17] == m.bytes[x + 17] && hdr[26] == m.bytes[x + 26] && hdr[0] == m.bytes[x]);
    lemma_log_status(hdr, 17, first);
    lemma_log_status(hdr, 26, second);
    assert(store_mark(store) == hdr[0]);
    assert(hdr.subrange(0, 1) =~= seq![status::status_byte(def::store_index_of(store))]);
    status::status_round_trip_one_byte(def::store_index_of(store), 4);
    assert(codec::le32(hdr, 1) == word(m.bytes, x + 1));
    assert(codec::le32(hdr, 5) == word(m.bytes, x + 5));
    assert(codec::le32(hdr, 9) == word(m.bytes, x + 9));
    assert(codec::le32(hdr, 13) == word(m.bytes, x + 13));
    assert(codec::le32(hdr, 18) == word(m.bytes, x + 18));
    assert(codec::le32(hdr, 22) == word(m.bytes, x + 22));
}

} // verus!
