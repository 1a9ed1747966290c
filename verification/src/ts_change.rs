//! Changing an image of the time-series database: what the writes of `ts_model` do to the
//! sectors and logs that a medium holds.
use vstd::prelude::*;

use crate::codec;
use crate::db;
use crate::db::Geo;
use crate::def::{SectorStoreStatus, TslStatus};
use crate::error::FdbError;
use crate::flash;
use crate::status;
use crate::storage::Medium;
use crate::ts_image as image;
use crate::ts_image::{Entry, Page};
use crate::ts_model as model;
use crate::ts_model::{TsSec, SECTOR_MAGIC_WORD};

verus! {

// ------------------------------------------------------------------------- framing

/// Whether two media agree on the bytes from `lo` to `hi`.
pub open spec fn same_on(b1: Seq<u8>, b2: Seq<u8>, lo: int, hi: int) -> bool {
    &&& b1.len() == b2.len()
    &&& forall|j: int| lo <= j < hi ==> #[trigger] b2[j] == b1[j]
}

/// A log is where its index record and its data are.
pub proof fn lemma_entry_frame(
    b1: Seq<u8>,
    b2: Seq<u8>,
    geo: Geo,
    at: int,
    recs: Seq<Entry>,
    recs2: Seq<Entry>,
    i: int,
)
    requires
        image::entry_at(b1, geo, at, recs, i),
        recs2[i] == recs[i],
        image::data_at(geo, at, recs2, i) == image::data_at(geo, at, recs, i),
        0 <= image::data_at(geo, at, recs, i),
        image::data_at(geo, at, recs, i) + recs[i].data.len() <= b1.len(),
        same_on(b1, b2, image::idx_at(at, i), image::idx_at(at, i) + 16),
        same_on(
            b1,
            b2,
            image::data_at(geo, at, recs, i),
            image::data_at(geo, at, recs, i) + recs[i].data.len(),
        ),
    ensures
        image::entry_at(b2, geo, at, recs2, i),
{
    let a = image::idx_at(at, i);
    let d = image::data_at(geo, at, recs, i);
    let len = recs[i].data.len() as int;
    assert(b2[a] == b1[a]);
    assert(b2[a + 4] == b1[a + 4] && b2[a + 5] == b1[a + 5] && b2[a + 6] == b1[a + 6] && b2[a + 7]
        == b1[a + 7]);
    assert(b2[a + 8] == b1[a + 8] && b2[a + 9] == b1[a + 9] && b2[a + 10] == b1[a + 10] && b2[a
        + 11] == b1[a + 11]);
    assert(b2[a + 12] == b1[a + 12] && b2[a + 13] == b1[a + 13] && b2[a + 14] == b1[a + 14] && b2[a
        + 15] == b1[a + 15]);
    assert(b2.subrange(d, d + len) =~= b1.subrange(d, d + len));
}

/// A sector is where its bytes are.
pub proof fn lemma_page_frame(b1: Seq<u8>, b2: Seq<u8>, geo: Geo, at: int, p: Page)
    requires
        geo.sec >= 32,
        image::page_at(b1, geo, at, p),
        same_on(b1, b2, at, at + geo.sec),
    ensures
        image::page_at(b2, geo, at, p),
{
    image::lemma_open_page(b1, geo, at, p);
    assert(codec::le32(b2, at + 1) == codec::le32(b1, at + 1));
    assert(codec::le32(b2, at + 5) == codec::le32(b1, at + 5));
    assert(codec::le32(b2, at + 9) == codec::le32(b1, at + 9));
    assert(codec::le32(b2, at + 13) == codec::le32(b1, at + 13));
    assert forall|i: int| 0 <= i < p.recs.len() implies #[trigger] image::entry_at(
        b2,
        geo,
        at,
        p.recs,
        i,
    ) by {
        image::lemma_entry(b1, geo, at, p, i);
        lemma_entry_frame(b1, b2, geo, at, p.recs, p.recs, i);
    }
    image::lemma_total(p.recs, 0, p.recs.len() as int);
    reveal(image::page_at);
}

/// Whether two media differ within the sector at `at` only.
pub open spec fn same_but(b1: Seq<u8>, b2: Seq<u8>, geo: Geo, at: int) -> bool {
    &&& b1.len() == b2.len()
    &&& forall|j: int|
        0 <= j < b1.len() && !(at <= j < at + geo.sec) ==> #[trigger] b2[j] == b1[j]
}

/// A change within one sector changes the image in that sector.
pub proof fn lemma_image_frame(
    b1: Seq<u8>,
    b2: Seq<u8>,
    geo: Geo,
    d: Map<int, Page>,
    at: int,
    p: Page,
)
    requires
        geo.sec >= 32,
        image::image(b1, geo, d),
        db::is_sector(geo, at),
        same_but(b1, b2, geo, at),
        image::page_at(b2, geo, at, p),
    ensures
        image::image(b2, geo, d.insert(at, p)),
{
    let d2 = d.insert(at, p);
    assert forall|x: int| db::is_sector(geo, x) implies image::page_at(
        b2,
        geo,
        x,
        #[trigger] d2[x],
    ) by {
        if x != at {
            db::lemma_apart(geo, x, at);
            assert(d2[x] == d[x]);
            assert(image::page_at(b1, geo, x, d[x]));
            image::lemma_open_page(b1, geo, x, d[x]);
            lemma_page_frame(b1, b2, geo, x, d[x]);
        }
    }
}

// ------------------------------------------------------------------------ formatting

/// A sector that was just formatted.
pub open spec fn fresh() -> Page {
    Page { store: SectorStoreStatus::Empty, recs: Seq::empty() }
}

/// What a formatted sector holds, whatever stood there.
pub proof fn lemma_format(m: Medium, geo: Geo, at: int)
    requires
        model::geo_ok(geo),
        m.budget is None,
        db::is_sector(geo, at),
        geo.max <= m.bytes.len(),
    ensures
        ({
            let (m1, r) = model::format(m, geo, at);
            &&& r == Ok::<(), FdbError>(())
            &&& m1.budget is None
            &&& m1.clears == m.clears
            &&& db::whole_sectors(geo, m.erases) ==> db::whole_sectors(geo, m1.erases)
            &&& m.flushed.len() == m.bytes.len() ==> m1.flushed.len() == m1.bytes.len()
            &&& same_but(m.bytes, m1.bytes, geo, at)
            &&& image::page_at(m1.bytes, geo, at, fresh())
        }),
{
    let m1 = m.erase(at, geo.sec);
    assert(m.accepts(at, geo.sec));
    if db::whole_sectors(geo, m.erases) {
        db::lemma_sector_erased(geo, m.erases, at);
    }
    assert(m1.bytes.len() == m.bytes.len());
    let m2 = flash::put_status(m1, at, 1, true);
    flash::lemma_clears_erased(m1, at, seq![status::status_byte(1)]);
    assert(m1.accepts(at, 1));
    let w = codec::le32_bytes(SECTOR_MAGIC_WORD as int);
    let m3 = m2.program(at + 1, w, true);
    flash::lemma_clears_erased(m2, at + 1, w);
    assert(m2.accepts(at + 1, 4));
    let b = m3.bytes;
    assert(b[at] == status::status_byte(1));
    assert(b.subrange(at + 1, at + 5) =~= w);
    codec::le32_round_trip(SECTOR_MAGIC_WORD as int, b, at + 1);
    assert(image::total(fresh().recs, 0) == 0);
    assert(image::page_at(b, geo, at, fresh())) by {
        reveal(image::page_at);
    }
}

// --------------------------------------------------------------------- writing a log

/// Whether the sector at `at` is in use and holds the logs `recs`, if any, and `start` as
/// the time of the first.
pub open spec fn in_use(bytes: Seq<u8>, geo: Geo, at: int, recs: Seq<Entry>, start: int) -> bool {
    let n = recs.len() as int;
    let p = Page { store: SectorStoreStatus::Using, recs };
    &&& 0 <= at
    &&& at + geo.sec <= bytes.len()
    &&& bytes[at] == status::status_byte(2)
    &&& codec::le32(bytes, at + 1) == SECTOR_MAGIC_WORD
    &&& codec::le32(bytes, at + 5) == start
    &&& n > 0 ==> start == recs[0].time
    &&& forall|j: int| at + 9 <= j < at + 18 ==> bytes[j] == 0xFF
    &&& bytes[at + 26] == 0xFF
    &&& image::gap(geo, p) >= 0
    &&& forall|i: int, j: int|
        0 <= i < j < n ==> (#[trigger] recs[i]).time < (#[trigger] recs[j]).time
    &&& forall|i: int| 0 <= i < n ==> #[trigger] image::entry_at(bytes, geo, at, recs, i)
    &&& forall|j: int|
        image::idx_at(at, n) <= j < image::idx_at(at, n) + image::gap(geo, p) ==> bytes[j] == 0xFF
}

/// A sector in use with logs is in use.
pub proof fn lemma_page_in_use(bytes: Seq<u8>, geo: Geo, at: int, p: Page)
    requires
        image::page_at(bytes, geo, at, p),
        p.store == SectorStoreStatus::Using,
    ensures
        in_use(bytes, geo, at, p.recs, p.recs[0].time),
{
    reveal(image::page_at);
    assert(Page { store: SectorStoreStatus::Using, recs: p.recs } == p);
}

/// The three words of an index record behind its status.
proof fn lemma_tail(time: int, len: int, d: int)
    ensures
        ({
            let t = model::record_tail(time, len, d);
            &&& t.len() == 12
            &&& t.subrange(0, 4) == codec::le32_bytes(codec::as_word(time))
            &&& t.subrange(4, 8) == codec::le32_bytes(len)
            &&& t.subrange(8, 12) == codec::le32_bytes(d)
        }),
{
    let t = model::record_tail(time, len, d);
    assert(t.subrange(0, 4) =~= codec::le32_bytes(codec::as_word(time)));
    assert(t.subrange(4, 8) =~= codec::le32_bytes(len));
    assert(t.subrange(8, 12) =~= codec::le32_bytes(d));
}

/// The medium after a log was written with its index record at `a` and its data at `d`.
pub open spec fn with_log(b: Seq<u8>, a: int, d: int, blob: Seq<u8>, time: int) -> Seq<u8> {
    codec::splice(
        codec::splice(b, a + 4, model::record_tail(time, blob.len() as int, d)),
        d,
        blob,
    ).update(a, status::status_byte(2))
}

/// Writing a log.
pub proof fn lemma_write_log(m: Medium, s: TsSec, blob: Seq<u8>, time: int)
    requires
        m.budget is None,
        0 <= s.empty_idx,
        s.empty_idx + 16 <= s.empty_data - blob.len(),
        s.empty_data <= m.bytes.len(),
        forall|j: int| s.empty_idx <= j < s.empty_data ==> #[trigger] m.bytes[j] == 0xFF,
    ensures
        ({
            let (m1, r) = model::write_log(m, s, blob, time);
            &&& r == Ok::<(), FdbError>(())
            &&& m1.budget is None
            &&& m1.clears == m.clears
            &&& m1.erases == m.erases
            &&& m.flushed.len() == m.bytes.len() ==> m1.flushed.len() == m1.bytes.len()
            &&& m1.bytes == with_log(
                m.bytes,
                s.empty_idx,
                s.empty_data - blob.len(),
                blob,
                time,
            )
        }),
{
    let a = s.empty_idx;
    let d = s.empty_data - blob.len();
    let t = model::record_tail(time, blob.len() as int, d);
    lemma_tail(time, blob.len() as int, d);
    let m1 = flash::put_status(m, a, 1, false);
    flash::lemma_clears_erased(m, a, seq![status::status_byte(1)]);
    assert(m.accepts(a, 1));
    assert(m1.bytes.len() == m.bytes.len());
    let m2 = m1.program(a + 4, t, false);
    flash::lemma_clears_erased(m1, a + 4, t);
    assert(m1.accepts(a + 4, 12));
    assert(m2.bytes.len() == m.bytes.len());
    let m3 = flash::put_data(m2, d, blob);
    flash::lemma_clears_erased(m2, d, blob);
    assert(m3.bytes =~= codec::splice(m2.bytes, d, blob)) by {
        if blob.len() > 0 {
            assert(m2.accepts(d, blob.len() as int));
        }
    }
    let m4 = flash::put_status(m3, a, 2, true);
    assert(m3.bytes[a] == status::status_byte(1));
    flash::lemma_clears_status(m3, a, 1, 2);
    assert(m3.accepts(a, 1));
    let want = with_log(m.bytes, a, d, blob, time);
    assert forall|j: int| 0 <= j < m.bytes.len() implies m4.bytes[j] == want[j] by {}
    assert(m4.bytes =~= want);
}

/// A written log stands where it was written.
proof fn lemma_new_entry(
    b: Seq<u8>,
    geo: Geo,
    at: int,
    recs: Seq<Entry>,
    blob: Seq<u8>,
    time: int,
)
    requires
        0 < time <= 0x7FFF_FFFF,
        0 <= at,
        at + geo.sec <= b.len() <= 0xFFFF_FFFF,
        image::gap(geo, (Page { store: SectorStoreStatus::Using, recs })) >= 16 + blob.len(),
    ensures
        ({
            let n = recs.len() as int;
            let e = Entry { status: TslStatus::Write, time, data: blob };
            let d = image::data_at(geo, at, recs.push(e), n);
            let b2 = with_log(b, image::idx_at(at, n), d, blob, time);
            &&& d == at + geo.sec - image::total(recs, n) - blob.len()
            &&& image::entry_at(b2, geo, at, recs.push(e), n)
        }),
{
    let n = recs.len() as int;
    let e = Entry { status: TslStatus::Write, time, data: blob };
    let recs2 = recs.push(e);
    image::lemma_total_same(recs2, recs, n);
    image::lemma_total(recs, 0, n);
    assert(image::total(recs2, n + 1) == image::total(recs, n) + blob.len());
    let d = image::data_at(geo, at, recs2, n);
    let a = image::idx_at(at, n);
    let b2 = with_log(b, a, d, blob, time);
    let len = blob.len() as int;
    let t = model::record_tail(time, len, d);
    lemma_tail(time, len, d);
    assert(b2[a] == status::status_byte(2));
    assert(b2.subrange(a + 4, a + 8) =~= t.subrange(0, 4));
    assert(b2.subrange(a + 8, a + 12) =~= t.subrange(4, 8));
    assert(b2.subrange(a + 12, a + 16) =~= t.subrange(8, 12));
    codec::le32_round_trip(time, b2, a + 4);
    codec::le32_round_trip(len, b2, a + 8);
    codec::le32_round_trip(d, b2, a + 12);
    assert(b2.subrange(d, d + len) =~= blob);
}

/// A log behind the logs of a sector in use is one more log of it.
#[verifier::rlimit(60)]
pub proof fn lemma_append(
    b: Seq<u8>,
    geo: Geo,
    at: int,
    recs: Seq<Entry>,
    start: int,
    blob: Seq<u8>,
    time: int,
)
    requires
        geo.sec >= 32,
        b.len() <= 0xFFFF_FFFF,
        in_use(b, geo, at, recs, start),
        image::gap(geo, (Page { store: SectorStoreStatus::Using, recs })) >= 16 + blob.len(),
        0 < time <= 0x7FFF_FFFF,
        recs.len() == 0 ==> start == time,
        recs.len() > 0 ==> recs[recs.len() - 1].time < time,
    ensures
        ({
            let n = recs.len() as int;
            let e = Entry { status: TslStatus::Write, time, data: blob };
            let d = at + geo.sec - image::total(recs, n) - blob.len();
            let b2 = with_log(b, image::idx_at(at, n), d, blob, time);
            let p2 = Page { store: SectorStoreStatus::Using, recs: recs.push(e) };
            &&& same_but(b, b2, geo, at)
            &&& image::page_at(b2, geo, at, p2)
            &&& image::gap(geo, p2) == image::gap(
                geo,
                (Page { store: SectorStoreStatus::Using, recs }),
            ) - 16 - blob.len()
            &&& image::total(recs.push(e), n + 1) == image::total(recs, n) + blob.len()
        }),
{
    let n = recs.len() as int;
    let p = Page { store: SectorStoreStatus::Using, recs };
    let e = Entry { status: TslStatus::Write, time, data: blob };
    let recs2 = recs.push(e);
    let p2 = Page { store: SectorStoreStatus::Using, recs: recs2 };
    let a = image::idx_at(at, n);
    let len = blob.len() as int;
    image::lemma_total(recs, 0, n);
    lemma_new_entry(b, geo, at, recs, blob, time);
    let d = image::data_at(geo, at, recs2, n);
    let b2 = with_log(b, a, d, blob, time);
    lemma_tail(time, len, d);
    assert(b2.len() == b.len());
    assert forall|j: int|
        0 <= j < b.len() && !(a <= j < a + 16) && !(d <= j < d + len) implies #[trigger] b2[j]
        == b[j] by {}
    assert forall|k: int| 0 <= k <= n implies #[trigger] image::total(recs2, k) == image::total(
        recs,
        k,
    ) by {
        image::lemma_total_same(recs2, recs, k);
    }
    assert(image::total(recs2, n) == image::total(recs, n));
    assert(image::total(recs2, n + 1) == image::total(recs, n) + len);
    assert(codec::le32(b2, at + 1) == codec::le32(b, at + 1));
    assert(codec::le32(b2, at + 5) == codec::le32(b, at + 5));
    assert forall|i: int| 0 <= i < n + 1 implies #[trigger] image::entry_at(
        b2,
        geo,
        at,
        recs2,
        i,
    ) by {
        if i < n {
            assert(recs[i] == recs2[i]);
            assert(image::entry_at(b, geo, at, recs, i));
            image::lemma_total(recs, i + 1, n);
            image::lemma_total(recs, i, i + 1);
            assert(image::total(recs2, i + 1) == image::total(recs, i + 1));
            lemma_entry_frame(b, b2, geo, at, recs, recs2, i);
        }
    }
    assert forall|i: int, j: int| 0 <= i < j < n + 1 implies (#[trigger] recs2[i]).time < (
    #[trigger] recs2[j]).time by {
        if j == n {
            if i < n - 1 {
                assert(recs[i].time < recs[n - 1].time);
            }
        } else {
            assert(recs[i].time < recs[j].time);
        }
    }
    assert(image::page_at(b2, geo, at, p2)) by {
        reveal(image::page_at);
    }
}

// --------------------------------------------------------- taking into use and closing

/// The medium once the empty sector at `at` was taken into use at `time`.
pub open spec fn begun(b: Seq<u8>, at: int, time: int) -> Seq<u8> {
    codec::splice(b.update(at, status::status_byte(2)), at + 5, codec::le32_bytes(time))
}

/// An empty sector that was taken into use.
pub proof fn lemma_begun(b: Seq<u8>, geo: Geo, at: int, time: int)
    requires
        geo.sec >= 32,
        image::page_at(b, geo, at, fresh()),
        0 < time <= 0x7FFF_FFFF,
    ensures
        in_use(begun(b, at, time), geo, at, Seq::empty(), time),
        same_but(b, begun(b, at, time), geo, at),
        image::gap(geo, (Page { store: SectorStoreStatus::Using, recs: Seq::empty() }))
            == geo.sec - 32,
{
    image::lemma_open_page(b, geo, at, fresh());
    let b2 = begun(b, at, time);
    let w = codec::le32_bytes(time);
    assert(b2.subrange(at + 5, at + 9) =~= w);
    codec::le32_round_trip(time, b2, at + 5);
    assert(codec::le32(b2, at + 1) == codec::le32(b, at + 1));
    assert(b[at + 17] == 0xFF && b[at + 26] == 0xFF);
    let p = Page { store: SectorStoreStatus::Using, recs: Seq::empty() };
    assert(image::gap(geo, p) == geo.sec - 32);
    assert(image::gap(geo, fresh()) == geo.sec - 32);
    assert forall|j: int|
        image::idx_at(at, 0) <= j < image::idx_at(at, 0) + image::gap(geo, p) implies b2[j]
        == 0xFF by {
        assert(b[j] == 0xFF);
    }
}

/// The medium once the sector at `at` was closed with the last time `time` and the last
/// index record at `idx`.
pub open spec fn closed_bytes(b: Seq<u8>, at: int, time: int, idx: int) -> Seq<u8> {
    codec::splice(
        codec::splice(b, at + 9, codec::le32_bytes(time)),
        at + 13,
        codec::le32_bytes(idx),
    ).update(at + 17, status::status_byte(2)).update(at, status::status_byte(3))
}

/// Closing a sector.
pub proof fn lemma_close_bytes(m: Medium, s: TsSec, time: int)
    requires
        m.budget is None,
        s.end0 == TslStatus::Unused,
        0 <= s.at,
        s.at + 32 <= m.bytes.len(),
        time >= 0,
        m.bytes[s.at] == status::status_byte(2),
        forall|j: int| s.at + 9 <= j < s.at + 18 ==> #[trigger] m.bytes[j] == 0xFF,
    ensures
        ({
            let (m1, r) = model::close_sector(m, s, time);
            &&& r == Ok::<(), FdbError>(())
            &&& m1.budget is None
            &&& m1.clears == m.clears
            &&& m1.erases == m.erases
            &&& m.flushed.len() == m.bytes.len() ==> m1.flushed.len() == m1.bytes.len()
            &&& m1.bytes == closed_bytes(m.bytes, s.at, time, s.empty_idx - 16)
        }),
{
    let at = s.at;
    let m1 = flash::put_status(m, at + 17, 1, false);
    flash::lemma_clears_erased(m, at + 17, seq![status::status_byte(1)]);
    assert(m.accepts(at + 17, 1));
    let m2 = m1.program(at + 9, codec::le32_bytes(time), false);
    flash::lemma_clears_erased(m1, at + 9, codec::le32_bytes(time));
    assert(m1.accepts(at + 9, 4));
    let m3 = m2.program(at + 13, codec::le32_bytes(s.empty_idx - 16), false);
    flash::lemma_clears_erased(m2, at + 13, codec::le32_bytes(s.empty_idx - 16));
    assert(m2.accepts(at + 13, 4));
    let m4 = flash::put_status(m3, at + 17, 2, true);
    assert(m3.bytes[at + 17] == status::status_byte(1));
    flash::lemma_clears_status(m3, at + 17, 1, 2);
    assert(m3.accepts(at + 17, 1));
    let m5 = flash::put_status(m4, at, 3, true);
    assert(m4.bytes[at] == status::status_byte(2));
    flash::lemma_clears_status(m4, at, 2, 3);
    assert(m4.accepts(at, 1));
    let want = closed_bytes(m.bytes, at, time, s.empty_idx - 16);
    assert(status::status_place(1) == 0 && status::status_place(2) == 0 && status::status_place(3)
        == 0);
    assert forall|j: int| 0 <= j < m.bytes.len() implies m5.bytes[j] == want[j] by {}
    assert(m5.bytes =~= want);
}

/// A sector in use that was closed.
#[verifier::rlimit(60)]
pub proof fn lemma_closed(b: Seq<u8>, geo: Geo, at: int, p: Page)
    requires
        geo.sec >= 32,
        b.len() <= 0xFFFF_FFFF,
        image::page_at(b, geo, at, p),
        p.store == SectorStoreStatus::Using,
    ensures
        ({
            let n = p.recs.len() as int;
            let b2 = closed_bytes(b, at, p.recs[n - 1].time, image::idx_at(at, n - 1));
            &&& same_but(b, b2, geo, at)
            &&& image::page_at(
                b2,
                geo,
                at,
                (Page { store: SectorStoreStatus::Full, recs: p.recs }),
            )
        }),
{
    let n = p.recs.len() as int;
    image::lemma_open_page(b, geo, at, p);
    image::lemma_entry(b, geo, at, p, n - 1);
    let time = p.recs[n - 1].time;
    let idx = image::idx_at(at, n - 1);
    let b2 = closed_bytes(b, at, time, idx);
    let p2 = Page { store: SectorStoreStatus::Full, recs: p.recs };
    assert(b2.subrange(at + 9, at + 13) =~= codec::le32_bytes(time));
    assert(b2.subrange(at + 13, at + 17) =~= codec::le32_bytes(idx));
    codec::le32_round_trip(time, b2, at + 9);
    codec::le32_round_trip(idx, b2, at + 13);
    assert(codec::le32(b2, at + 1) == codec::le32(b, at + 1));
    assert(codec::le32(b2, at + 5) == codec::le32(b, at + 5));
    assert forall|i: int| 0 <= i < n implies #[trigger] image::entry_at(
        b2,
        geo,
        at,
        p.recs,
        i,
    ) by {
        image::lemma_entry(b, geo, at, p, i);
        lemma_entry_frame(b, b2, geo, at, p.recs, p.recs, i);
    }
    assert(image::gap(geo, p2) == image::gap(geo, p));
    assert(b2[at] == status::status_byte(3));
    assert(b2[at + 17] == status::status_byte(2));
    assert(b2[at + 26] == 0xFF);
    assert(image::page_at(b2, geo, at, p2)) by {
        reveal(image::page_at);
    }
}

} // verus!
