//! Images of the time-series database: what a medium holds, sector by sector and log by
//! log, and how the operations of `ts_model` read such a medium.
use vstd::prelude::*;

use crate::codec;
use crate::db;
use crate::db::Geo;
use crate::def;
use crate::def::{SectorStoreStatus, TslStatus};
use crate::flash;
use crate::status;
use crate::storage::Medium;
use crate::ts_model as model;
use crate::ts_model::{Log, TsSec, SECTOR_MAGIC_WORD};

verus! {

/// A log: its status, its time and its data.
pub struct Entry {
    pub status: TslStatus,
    pub time: int,
    pub data: Seq<u8>,
}

/// A sector: its store status and its logs.
pub struct Page {
    pub store: SectorStoreStatus,
    pub recs: Seq<Entry>,
}

/// The total length of the data of the first `i` logs.
pub open spec fn total(recs: Seq<Entry>, i: int) -> int
    decreases i,
{
    if i <= 0 {
        0
    } else {
        total(recs, i - 1) + recs[i - 1].data.len()
    }
}

/// The address of the index record of the `i`th log of the sector at `at`.
pub open spec fn idx_at(at: int, i: int) -> int {
    at + 32 + 16 * i
}

/// The address of the data of the `i`th log of the sector at `at`.
pub open spec fn data_at(geo: Geo, at: int, recs: Seq<Entry>, i: int) -> int {
    at + geo.sec - total(recs, i + 1)
}

/// How many bytes are free between the index records and the data.
pub open spec fn gap(geo: Geo, p: Page) -> int {
    geo.sec - 32 - 16 * p.recs.len() - total(p.recs, p.recs.len() as int)
}

/// Whether a log is one that was written: its status says so, and its time can be.
pub open spec fn entry_ok(e: Entry) -> bool {
    &&& e.status != TslStatus::Unused
    &&& e.status != TslStatus::PreWrite
    &&& 0 < e.time <= 0x7FFF_FFFF
}

/// Whether the `i`th of the logs `recs` stands in the sector at `at`.
pub open spec fn entry_at(bytes: Seq<u8>, geo: Geo, at: int, recs: Seq<Entry>, i: int) -> bool {
    let a = idx_at(at, i);
    let e = recs[i];
    let b = data_at(geo, at, recs, i);
    &&& entry_ok(e)
    &&& bytes[a] == status::status_byte(def::tsl_index_of(e.status))
    &&& codec::le32(bytes, a + 4) == e.time
    &&& codec::le32(bytes, a + 8) == e.data.len()
    &&& codec::le32(bytes, a + 12) == b
    &&& bytes.subrange(b, b + e.data.len()) == e.data
}

/// Whether the status and the logs of a sector go together: an empty sector holds none,
/// the logs fit, and each comes later than those before it.
pub open spec fn page_ok(geo: Geo, p: Page) -> bool {
    &&& p.store != SectorStoreStatus::Unused
    &&& p.store == SectorStoreStatus::Empty <==> p.recs.len() == 0
    &&& gap(geo, p) >= 0
    &&& forall|i: int, j: int|
        0 <= i < j < p.recs.len() ==> (#[trigger] p.recs[i]).time < (#[trigger] p.recs[j]).time
}

/// Whether the sector at `at` holds `p`.
#[verifier::opaque]
pub open spec fn page_at(bytes: Seq<u8>, geo: Geo, at: int, p: Page) -> bool {
    let n = p.recs.len() as int;
    &&& page_ok(geo, p)
    &&& 0 <= at
    &&& at + geo.sec <= bytes.len()
    &&& bytes[at] == status::status_byte(def::store_index_of(p.store))
    &&& codec::le32(bytes, at + 1) == SECTOR_MAGIC_WORD
    &&& n == 0 ==> forall|j: int| at + 5 <= j < at + 32 ==> bytes[j] == 0xFF
    &&& n > 0 ==> codec::le32(bytes, at + 5) == p.recs[0].time
    &&& bytes[at + 26] == 0xFF
    &&& p.store == SectorStoreStatus::Using ==> forall|j: int|
        at + 9 <= j < at + 18 ==> bytes[j] == 0xFF
    &&& p.store == SectorStoreStatus::Full ==> {
        &&& bytes[at + 17] == status::status_byte(2)
        &&& codec::le32(bytes, at + 9) == p.recs[n - 1].time
        &&& codec::le32(bytes, at + 13) == idx_at(at, n - 1)
    }
    &&& forall|i: int| 0 <= i < n ==> #[trigger] entry_at(bytes, geo, at, p.recs, i)
    &&& forall|j: int| idx_at(at, n) <= j < idx_at(at, n) + gap(geo, p) ==> bytes[j] == 0xFF
}

/// Whether the medium holds the sectors of `d`, a map from sector addresses.
pub open spec fn image(bytes: Seq<u8>, geo: Geo, d: Map<int, Page>) -> bool {
    forall|at: int| db::is_sector(geo, at) ==> page_at(bytes, geo, at, #[trigger] d[at])
}

/// What holds of a database whose medium holds the image `d`, and was erased by whole
/// sectors alone.
pub open spec fn holds_image(m: Medium, geo: Geo, d: Map<int, Page>) -> bool {
    &&& model::geo_ok(geo)
    &&& geo.max <= m.bytes.len() <= 0xFFFF_FFFF
    &&& image(m.bytes, geo, d)
    &&& db::whole_sectors(geo, m.erases)
    &&& m.flushed.len() == m.bytes.len()
}

// ------------------------------------------------------------------ basic facts

/// Index records fill a sector without rest: none reaches beyond the medium.
pub proof fn lemma_sixteen(geo: Geo)
    requires
        model::geo_ok(geo),
    ensures
        geo.sec % 16 == 0,
{
    reveal_with_fuel(db::power_of_two, 5);
}

pub proof fn lemma_total(recs: Seq<Entry>, i: int, j: int)
    requires
        0 <= i <= j <= recs.len(),
    ensures
        0 <= total(recs, i) <= total(recs, j),
        i < j ==> total(recs, i) + recs[i].data.len() <= total(recs, j),
    decreases j,
{
    if i < j {
        lemma_total(recs, i, j - 1);
    } else if i > 0 {
        lemma_total(recs, i - 1, j - 1);
    }
}

/// Logs with data of equal lengths lie at equal places.
pub proof fn lemma_total_same(a: Seq<Entry>, b: Seq<Entry>, i: int)
    requires
        0 <= i <= a.len(),
        i <= b.len(),
        forall|k: int| 0 <= k < i ==> (#[trigger] a[k]).data.len() == b[k].data.len(),
    ensures
        total(a, i) == total(b, i),
    decreases i,
{
    if i > 0 {
        lemma_total_same(a, b, i - 1);
        assert(a[i - 1].data.len() == b[i - 1].data.len());
    }
}

/// The facts of a sector that its representation consists of.
pub proof fn lemma_open_page(bytes: Seq<u8>, geo: Geo, at: int, p: Page)
    requires
        page_at(bytes, geo, at, p),
    ensures
        ({
            let n = p.recs.len() as int;
            &&& page_ok(geo, p)
            &&& 0 <= at
            &&& at + geo.sec <= bytes.len()
            &&& bytes[at] == status::status_byte(def::store_index_of(p.store))
            &&& codec::le32(bytes, at + 1) == SECTOR_MAGIC_WORD
            &&& n == 0 ==> forall|j: int| at + 5 <= j < at + 32 ==> bytes[j] == 0xFF
            &&& n > 0 ==> codec::le32(bytes, at + 5) == p.recs[0].time
            &&& bytes[at + 26] == 0xFF
            &&& p.store == SectorStoreStatus::Using ==> forall|j: int|
                at + 9 <= j < at + 18 ==> bytes[j] == 0xFF
            &&& p.store == SectorStoreStatus::Full ==> {
                &&& bytes[at + 17] == status::status_byte(2)
                &&& codec::le32(bytes, at + 9) == p.recs[n - 1].time
                &&& codec::le32(bytes, at + 13) == idx_at(at, n - 1)
            }
            &&& forall|j: int|
                idx_at(at, n) <= j < idx_at(at, n) + gap(geo, p) ==> bytes[j] == 0xFF
        }),
{
    reveal(page_at);
}

/// Where the `i`th log of a sector lies.
pub proof fn lemma_entry(bytes: Seq<u8>, geo: Geo, at: int, p: Page, i: int)
    requires
        page_at(bytes, geo, at, p),
        0 <= i < p.recs.len(),
    ensures
        entry_at(bytes, geo, at, p.recs, i),
        entry_ok(p.recs[i]),
        at + 32 <= idx_at(at, i),
        idx_at(at, i) + 16 <= idx_at(at, p.recs.len() as int),
        idx_at(at, p.recs.len() as int) <= data_at(geo, at, p.recs, i),
        data_at(geo, at, p.recs, i) + p.recs[i].data.len() <= at + geo.sec,
        data_at(geo, at, p.recs, i) >= idx_at(at, p.recs.len() as int) + gap(geo, p),
        at + geo.sec <= bytes.len(),
        0 <= at,
{
    reveal(page_at);
    let e = p.recs[i];
    assert(entry_at(bytes, geo, at, p.recs, i));
    lemma_total(p.recs, i + 1, p.recs.len() as int);
    lemma_total(p.recs, i, i + 1);
}

/// The log that reading the index record of the `i`th of the logs `recs` gives.
pub open spec fn log_of(geo: Geo, at: int, recs: Seq<Entry>, i: int) -> Log {
    Log {
        status: recs[i].status,
        time: recs[i].time,
        len: recs[i].data.len() as int,
        at: idx_at(at, i),
        data_at: data_at(geo, at, recs, i),
    }
}

/// The status in a byte.
proof fn lemma_tsl_status(s: Seq<u8>, off: int, t: TslStatus)
    requires
        0 <= off < s.len(),
        s[off] == status::status_byte(def::tsl_index_of(t)),
    ensures
        def::tsl_status_of(status::decode_status(s.subrange(off, off + 1), 6)) == t,
{
    assert(s.subrange(off, off + 1) =~= seq![status::status_byte(def::tsl_index_of(t))]);
    status::status_round_trip_one_byte(def::tsl_index_of(t), 6);
}

/// An erased byte is the status of nothing.
pub proof fn lemma_erased_status()
    ensures
        status::status_byte(0) == 0xFF,
        status::status_byte(1) == 0x7F,
        status::status_byte(2) == 0x3F,
        status::status_byte(3) == 0x1F,
{
    assert(0xFFu8 >> 0u8 == 0xFF) by (bit_vector);
    assert(0xFFu8 >> 1u8 == 0x7F) by (bit_vector);
    assert(0xFFu8 >> 2u8 == 0x3F) by (bit_vector);
    assert(0xFFu8 >> 3u8 == 0x1F) by (bit_vector);
}

/// Reading a log gives it, and its data.
pub proof fn lemma_log(m: Medium, geo: Geo, max_len: int, at: int, p: Page, i: int)
    requires
        page_at(m.bytes, geo, at, p),
        0 <= i < p.recs.len(),
    ensures
        model::log_at(m, max_len, idx_at(at, i)) == log_of(geo, at, p.recs, i),
        model::data_of(m, log_of(geo, at, p.recs, i)) == p.recs[i].data,
{
    reveal(model::log_at);
    lemma_entry(m.bytes, geo, at, p, i);
    let a = idx_at(at, i);
    let idx = m.fetch(a, flash::zeros(16));
    assert(idx =~= m.bytes.subrange(a, a + 16));
    assert(idx[0] == m.bytes[a]);
    lemma_tsl_status(idx, 0, p.recs[i].status);
    assert(codec::le32(idx, 4) == codec::le32(m.bytes, a + 4));
    assert(codec::le32(idx, 8) == codec::le32(m.bytes, a + 8));
    assert(codec::le32(idx, 12) == codec::le32(m.bytes, a + 12));
}

/// Reading an index record whose status is erased.
pub proof fn lemma_no_log(m: Medium, max_len: int, a: int)
    requires
        0 <= a,
        a + 16 <= m.bytes.len(),
        m.bytes[a] == 0xFF,
    ensures
        model::log_at(m, max_len, a).status == TslStatus::Unused,
        model::log_at(m, max_len, a).time == 0,
{
    reveal(model::log_at);
    let idx = m.fetch(a, flash::zeros(16));
    assert(idx =~= m.bytes.subrange(a, a + 16));
    assert(idx[0] == m.bytes[a]);
    lemma_erased_status();
    lemma_tsl_status(idx, 0, TslStatus::Unused);
}

/// The sector that reading the header of `p` at `at` gives.
pub open spec fn head_sec(geo: Geo, at: int, p: Page) -> TsSec {
    let n = p.recs.len() as int;
    TsSec {
        check_ok: true,
        status: p.store,
        at,
        start: if n == 0 {
            -1
        } else {
            p.recs[0].time
        },
        end: if p.store == SectorStoreStatus::Full {
            p.recs[n - 1].time
        } else {
            0
        },
        end_idx: if p.store == SectorStoreStatus::Full {
            idx_at(at, n - 1)
        } else {
            0
        },
        end0: if p.store == SectorStoreStatus::Full {
            TslStatus::Write
        } else {
            TslStatus::Unused
        },
        end1: TslStatus::Unused,
        remain: geo.sec - 32,
        empty_idx: at + 32,
        empty_data: at + geo.sec,
    }
}

/// Reading the header of a sector.
pub proof fn lemma_head(m: Medium, geo: Geo, at: int, p: Page)
    requires
        geo.sec >= 32,
        page_at(m.bytes, geo, at, p),
    ensures
        model::sector_head(m, geo, at, model::blank_sec()) == head_sec(geo, at, p),
{
    let b = m.bytes;
    lemma_open_page(b, geo, at, p);
    let hdr = m.fetch(at, flash::zeros(32));
    assert(hdr =~= b.subrange(at, at + 32));
    assert(codec::le32(hdr, 1) == codec::le32(b, at + 1));
    assert(codec::le32(hdr, 5) == codec::le32(b, at + 5));
    assert(codec::le32(hdr, 9) == codec::le32(b, at + 9));
    assert(codec::le32(hdr, 13) == codec::le32(b, at + 13));
    assert(hdr[0] == b[at]);
    assert(hdr[17] == b[at + 17]);
    assert(hdr[26] == b[at + 26]);
    assert(hdr.subrange(0, 1) =~= seq![status::status_byte(def::store_index_of(p.store))]);
    status::status_round_trip_one_byte(def::store_index_of(p.store), 4);
    lemma_erased_status();
    lemma_tsl_status(hdr, 26, TslStatus::Unused);
    let n = p.recs.len() as int;
    if n > 0 {
        lemma_entry(b, geo, at, p, 0);
        lemma_entry(b, geo, at, p, n - 1);
    } else {
        assert(b[at + 5] == 0xFF && b[at + 6] == 0xFF && b[at + 7] == 0xFF && b[at + 8] == 0xFF);
        assert(b[at + 17] == 0xFF);
        assert(codec::le32(b, at + 5) == 0xFFFF_FFFF);
    }
    if p.store == SectorStoreStatus::Full {
        lemma_tsl_status(hdr, 17, TslStatus::Write);
    } else {
        lemma_tsl_status(hdr, 17, TslStatus::Unused);
    }
}

/// The sector object of a sector with logs that is in use, once they were read.
pub open spec fn full_sec(geo: Geo, at: int, p: Page) -> TsSec {
    let n = p.recs.len() as int;
    TsSec {
        end: p.recs[n - 1].time,
        end_idx: idx_at(at, n - 1),
        remain: gap(geo, p),
        empty_idx: idx_at(at, n),
        empty_data: at + geo.sec - total(p.recs, n),
        ..head_sec(geo, at, p)
    }
}

/// Reading the logs of a sector in use, from the `i`th on.
proof fn lemma_tally(m: Medium, geo: Geo, max_len: int, at: int, p: Page, i: int, s: TsSec)
    requires
        geo.sec >= 32,
        geo.sec % 16 == 0,
        page_at(m.bytes, geo, at, p),
        p.store == SectorStoreStatus::Using,
        0 <= i <= p.recs.len(),
        s == (TsSec {
            end: if i == 0 {
                0
            } else {
                p.recs[i - 1].time
            },
            end_idx: if i == 0 {
                0
            } else {
                idx_at(at, i - 1)
            },
            remain: geo.sec - 32 - 16 * i - total(p.recs, i),
            empty_idx: idx_at(at, i),
            empty_data: at + geo.sec - total(p.recs, i),
            ..head_sec(geo, at, p)
        }),
        s.remain > 0,
    ensures
        model::tally(m, max_len, s).0 == full_sec(geo, at, p),
    decreases p.recs.len() - i,
{
    let n = p.recs.len() as int;
    lemma_open_page(m.bytes, geo, at, p);
    if i < n {
        lemma_log(m, geo, max_len, at, p, i);
        lemma_entry(m.bytes, geo, at, p, i);
        lemma_total(p.recs, i + 1, n);
        lemma_total(p.recs, 0, i);
        let cost = 16 + p.recs[i].data.len();
        assert(total(p.recs, i + 1) == total(p.recs, i) + p.recs[i].data.len());
        let s1 = TsSec {
            end: p.recs[i].time,
            end_idx: s.empty_idx,
            empty_idx: s.empty_idx + 16,
            empty_data: s.empty_data - p.recs[i].data.len(),
            remain: s.remain - cost,
            ..s
        };
        if s.remain > cost {
            lemma_tally(m, geo, max_len, at, p, i + 1, s1);
        } else {
            // Nothing is left behind this log.
            assert(s.remain == cost);
            assert(i + 1 == n);
        }
    } else {
        lemma_behind(m, geo, max_len, at, p);
    }
}

/// Behind the last log of a sector with free bytes stands none.
pub proof fn lemma_behind(m: Medium, geo: Geo, max_len: int, at: int, p: Page)
    requires
        geo.sec % 16 == 0,
        page_at(m.bytes, geo, at, p),
        gap(geo, p) > 0,
    ensures
        model::log_at(m, max_len, idx_at(at, p.recs.len() as int)).status == TslStatus::Unused,
        model::log_at(m, max_len, idx_at(at, p.recs.len() as int)).time == 0,
{
    let n = p.recs.len() as int;
    lemma_open_page(m.bytes, geo, at, p);
    lemma_total(p.recs, 0, n);
    assert(m.bytes[idx_at(at, n)] == 0xFF);
    assert((geo.sec - 32 - 16 * n) % 16 == 0) by {
        let q = geo.sec / 16;
        assert(geo.sec == 16 * q);
        assert(geo.sec - 32 - 16 * n == 16 * (q - 2 - n));
    }
    assert(geo.sec - 32 - 16 * n > 0);
    assert(idx_at(at, n) + 16 <= at + geo.sec);
    lemma_no_log(m, max_len, idx_at(at, n));
}

/// Reading a sector with its logs.
pub proof fn lemma_full(m: Medium, geo: Geo, max_len: int, at: int, p: Page)
    requires
        geo.sec >= 32,
        geo.sec % 16 == 0,
        page_at(m.bytes, geo, at, p),
    ensures
        model::sector_full(m, geo, max_len, at, model::blank_sec()).0 == (if p.store
            == SectorStoreStatus::Using {
            full_sec(geo, at, p)
        } else {
            head_sec(geo, at, p)
        }),
{
    lemma_head(m, geo, at, p);
    if p.store == SectorStoreStatus::Using {
        lemma_open_page(m.bytes, geo, at, p);
        lemma_total(p.recs, 0, p.recs.len() as int);
        lemma_tally(m, geo, max_len, at, p, 0, head_sec(geo, at, p));
    }
}

} // verus!
