//! What the time-series database promises: collecting gives the logs in the order in which
//! they were appended, with their data, and appending adds one.
use vstd::prelude::*;

use crate::codec;
use crate::db;
use crate::db::Geo;
use crate::def::{SectorStoreStatus, TslStatus};
use crate::error::FdbError;
use crate::flash;
use crate::ring;
use crate::status;
use crate::storage::Medium;
use crate::ts_change as change;
use crate::ts_image as image;
use crate::ts_image::{Entry, Page};
use crate::ts_model as model;
use crate::ts_model::{Log, TsSec, TsState};

verus! {

// ------------------------------------------------------------------ the logs in order

/// The logs of a sector, as reading them gives them.
pub open spec fn page_logs(geo: Geo, at: int, p: Page) -> Seq<Log> {
    Seq::new(p.recs.len(), |i: int| image::log_of(geo, at, p.recs, i))
}

/// The logs of all sectors on a walk from the sector `o` on that has come past `t` bytes,
/// as reading them gives them.
pub open spec fn logs_of(geo: Geo, d: Map<int, Page>, o: int, t: int) -> Seq<Log>
    decreases geo.max - t,
{
    let at = ring::at(geo, o, t);
    let here = page_logs(geo, at, d[at]);
    if geo.sec > 0 && t + geo.sec < geo.max {
        here + logs_of(geo, d, o, t + geo.sec)
    } else {
        here
    }
}

/// The logs of all sectors on a walk from the sector `o` on that has come past `t` bytes.
pub open spec fn entries(geo: Geo, d: Map<int, Page>, o: int, t: int) -> Seq<Entry>
    decreases geo.max - t,
{
    let at = ring::at(geo, o, t);
    if geo.sec > 0 && t + geo.sec < geo.max {
        d[at].recs + entries(geo, d, o, t + geo.sec)
    } else {
        d[at].recs
    }
}

/// Whether the log object `l` shows the log `e`: its status, its time, and where its data
/// stands on the medium.
pub open spec fn shows(m: Medium, l: Log, e: Entry) -> bool {
    &&& l.status == e.status
    &&& l.time == e.time
    &&& l.len == e.data.len()
    &&& model::data_of(m, l) == e.data
}

/// Whether the log objects `logs` show the logs `es`, one by one.
pub open spec fn all_shown(m: Medium, logs: Seq<Log>, es: Seq<Entry>) -> bool {
    &&& logs.len() == es.len()
    &&& forall|k: int| 0 <= k < es.len() ==> shows(m, #[trigger] logs[k], es[k])
}

/// What reading gives shows what is there.
proof fn lemma_shown(m: Medium, geo: Geo, d: Map<int, Page>, o: int, t: int)
    requires
        image::holds_image(m, geo, d),
        ring::on_walk(geo, o, t),
    ensures
        all_shown(m, logs_of(geo, d, o, t), entries(geo, d, o, t)),
    decreases geo.max - t,
{
    let at = ring::at(geo, o, t);
    ring::lemma_walk(geo, o, t);
    let here = page_logs(geo, at, d[at]);
    assert(image::page_at(m.bytes, geo, at, d[at]));
    assert forall|k: int| 0 <= k < here.len() implies shows(
        m,
        #[trigger] here[k],
        d[at].recs[k],
    ) by {
        image::lemma_log(m, geo, 0, at, d[at], k);
    }
    if t + geo.sec < geo.max {
        lemma_shown(m, geo, d, o, t + geo.sec);
        let rest = logs_of(geo, d, o, t + geo.sec);
        let es = entries(geo, d, o, t + geo.sec);
        let n = here.len() as int;
        assert forall|k: int| 0 <= k < n + es.len() implies shows(
            m,
            #[trigger] (here + rest)[k],
            (d[at].recs + es)[k],
        ) by {
            if k < n {
                assert((here + rest)[k] == here[k]);
            } else {
                assert((here + rest)[k] == rest[k - n]);
                assert((d[at].recs + es)[k] == es[k - n]);
            }
        }
    }
}

// --------------------------------------------------------------------------- the state

/// How the sectors of a database with the oldest sector `o` and the current sector `c` lie:
/// those before the current one are full, those behind it are empty, and unless the
/// database has come round, the oldest is the first.
pub open spec fn arranged(geo: Geo, d: Map<int, Page>, o: int, c: int) -> bool {
    &&& db::is_sector(geo, o)
    &&& db::is_sector(geo, c)
    &&& forall|x: int|
        db::is_sector(geo, x) && ring::dist(geo, o, x) < ring::dist(geo, o, c) ==> (
        #[trigger] d[x]).store == SectorStoreStatus::Full
    &&& forall|x: int|
        db::is_sector(geo, x) && ring::dist(geo, o, x) > ring::dist(geo, o, c) ==> (
        #[trigger] d[x]).store == SectorStoreStatus::Empty
    &&& o == 0 || ring::dist(geo, o, c) + geo.sec == geo.max
    &&& d[c].store == SectorStoreStatus::Empty ==> o == 0 && c == 0
    &&& d[c].store == SectorStoreStatus::Full ==> o == 0 && c + geo.sec == geo.max
}

/// Whether the logs of each sector come later than those of the sectors before it.
pub open spec fn ordered(geo: Geo, d: Map<int, Page>, o: int) -> bool {
    forall|x: int, y: int|
        #![trigger d[x], d[y]]
        db::is_sector(geo, x) && db::is_sector(geo, y) && ring::dist(geo, o, x) < ring::dist(
            geo,
            o,
            y,
        ) && d[x].recs.len() > 0 && d[y].recs.len() > 0 ==> d[x].recs.last().time
            < d[y].recs[0].time
}

/// Whether the sector object `s` is what is known of the current sector `p`.
pub open spec fn current(geo: Geo, s: TsSec, p: Page) -> bool {
    if p.store == SectorStoreStatus::Using {
        s == image::full_sec(geo, s.at, p)
    } else if p.store == SectorStoreStatus::Empty {
        s == image::head_sec(geo, s.at, p)
    } else {
        s.status == SectorStoreStatus::Full
    }
}

/// What holds of a database between two operations, whose medium holds the image `d`.
pub open spec fn good(st: TsState, d: Map<int, Page>) -> bool {
    &&& image::holds_image(st.m, st.geo, d)
    &&& st.m.budget is None
    &&& 0 <= st.max_len
    &&& arranged(st.geo, d, st.oldest, st.cur.at)
    &&& ordered(st.geo, d, st.oldest)
    &&& current(st.geo, st.cur, d[st.cur.at])
    &&& st.last_time == (if d[st.cur.at].recs.len() == 0 {
        0
    } else {
        d[st.cur.at].recs.last().time
    })
}

/// Whether a sector is packed for logs of up to `max_len` bytes: none of its logs is longer,
/// and where it is full a log of that length has no room.
pub open spec fn packed_page(geo: Geo, max_len: int, p: Page) -> bool {
    &&& p.store == SectorStoreStatus::Full ==> image::gap(geo, p) < 16 + max_len
    &&& forall|i: int| 0 <= i < p.recs.len() ==> (#[trigger] p.recs[i]).data.len() <= max_len
}

/// Whether every sector is packed for logs of up to `max_len` bytes.
pub open spec fn packed(geo: Geo, max_len: int, d: Map<int, Page>) -> bool {
    forall|x: int| db::is_sector(geo, x) ==> packed_page(geo, max_len, #[trigger] d[x])
}

/// The logs of a database.
pub open spec fn contents(st: TsState, d: Map<int, Page>) -> Seq<Entry> {
    entries(st.geo, d, st.oldest, 0)
}

/// What a sector is read as on a walk.
pub proof fn lemma_here(st: TsState, d: Map<int, Page>, at: int)
    requires
        good(st, d),
        db::is_sector(st.geo, at),
    ensures
        model::has_logs(st, at) == (d[at].recs.len() > 0),
        model::sector_here(st, at).at == at,
        d[at].recs.len() > 0 ==> ({
            let s = model::sector_here(st, at);
            &&& s.status == d[at].store
            &&& s.start == d[at].recs[0].time
            &&& s.end == d[at].recs.last().time
            &&& s.end_idx == image::idx_at(at, d[at].recs.len() - 1)
        }),
        model::sector_head(st.m, st.geo, at, model::blank_sec()) == image::head_sec(
            st.geo,
            at,
            d[at],
        ),
{
    let geo = st.geo;
    assert(image::page_at(st.m.bytes, geo, at, d[at]));
    image::lemma_open_page(st.m.bytes, geo, at, d[at]);
    image::lemma_head(st.m, geo, at, d[at]);
    if d[at].store == SectorStoreStatus::Using {
        if at != st.cur.at {
            ring::lemma_dist(geo, st.oldest, at);
            ring::lemma_dist(geo, st.oldest, st.cur.at);
        }
        assert(at == st.cur.at);
    }
}

// ------------------------------------------------------------------------- collecting

/// The logs of a sector, read upwards.
proof fn lemma_logs_up(m: Medium, geo: Geo, max_len: int, at: int, p: Page, s: TsSec, i: int)
    requires
        image::page_at(m.bytes, geo, at, p),
        m.bytes.len() <= 0xFFFF_FFFF,
        s.status != SectorStoreStatus::Empty,
        s.end_idx == image::idx_at(at, p.recs.len() - 1),
        0 <= i < p.recs.len(),
    ensures
        model::logs_from(m, max_len, s, image::idx_at(at, i)) == page_logs(geo, at, p).subrange(
            i,
            p.recs.len() as int,
        ),
    decreases p.recs.len() - i,
{
    let n = p.recs.len() as int;
    let all = page_logs(geo, at, p);
    image::lemma_log(m, geo, max_len, at, p, i);
    image::lemma_entry(m.bytes, geo, at, p, i);
    image::lemma_open_page(m.bytes, geo, at, p);
    image::lemma_total(p.recs, 0, n);
    if i + 1 < n {
        image::lemma_entry(m.bytes, geo, at, p, i + 1);
        lemma_logs_up(m, geo, max_len, at, p, s, i + 1);
        assert(all.subrange(i, n) =~= seq![all[i]] + all.subrange(i + 1, n));
    } else {
        assert(all.subrange(i, n) =~= seq![all[i]]);
    }
}

pub proof fn lemma_collect_from(st: TsState, d: Map<int, Page>, t: int)
    requires
        good(st, d),
        ring::on_walk(st.geo, st.oldest, t),
    ensures
        model::collect_from(st, ring::at(st.geo, st.oldest, t), t) == logs_of(
            st.geo,
            d,
            st.oldest,
            t,
        ),
    decreases st.geo.max - t,
{
    let geo = st.geo;
    let at = ring::at(geo, st.oldest, t);
    ring::lemma_walk(geo, st.oldest, t);
    lemma_here(st, d, at);
    let s = model::sector_here(st, at);
    let here = page_logs(geo, at, d[at]);
    assert(image::page_at(st.m.bytes, geo, at, d[at]));
    image::lemma_open_page(st.m.bytes, geo, at, d[at]);
    if d[at].recs.len() > 0 {
        lemma_logs_up(st.m, geo, st.max_len, at, d[at], s, 0);
        assert(here.subrange(0, here.len() as int) =~= here);
        assert(image::idx_at(at, 0) == s.at + 32);
    } else {
        assert(here =~= Seq::<Log>::empty());
    }
    if t + geo.sec < geo.max {
        ring::lemma_walk(geo, st.oldest, t + geo.sec);
        lemma_collect_from(st, d, t + geo.sec);
    }
}

/// Collecting gives the logs of the database in their order, each with its status, time and
/// data.
pub proof fn collect_gives_the_contents(st: TsState, d: Map<int, Page>)
    requires
        good(st, d),
    ensures
        all_shown(st.m, model::collect(st), contents(st, d)),
{
    ring::lemma_first(st.geo, st.oldest);
    lemma_collect_from(st, d, 0);
    lemma_shown(st.m, st.geo, d, st.oldest, 0);
}

// -------------------------------------------------------------------------- appending

/// The log that appending writes.
pub open spec fn new_entry(blob: Seq<u8>, time: int) -> Entry {
    Entry { status: TslStatus::Write, time, data: blob }
}

/// The sector `p` with one more log, in use.
pub open spec fn with_entry(p: Page, e: Entry) -> Page {
    Page { store: SectorStoreStatus::Using, recs: p.recs.push(e) }
}

/// What is known of the current sector once a log was written to it.
pub open spec fn after_write(s: TsSec, blob: Seq<u8>, time: int) -> TsSec {
    TsSec {
        end_idx: s.empty_idx,
        end: time,
        empty_idx: model::capped(s.empty_idx + 16),
        empty_data: model::above_zero(s.empty_data - blob.len()),
        remain: model::floored(s.remain - (16 + blob.len())),
        ..s
    }
}

/// Writing a log to a current sector with logs and room.
proof fn lemma_write_more(
    m: Medium,
    geo: Geo,
    d: Map<int, Page>,
    c: int,
    s: TsSec,
    blob: Seq<u8>,
    time: int,
)
    requires
        image::holds_image(m, geo, d),
        m.budget is None,
        db::is_sector(geo, c),
        d[c].store == SectorStoreStatus::Using,
        s == image::full_sec(geo, c, d[c]),
        image::gap(geo, d[c]) >= 16 + blob.len(),
        d[c].recs.last().time < time <= 0x7FFF_FFFF,
    ensures
        ({
            let (m1, r) = model::write_log(m, s, blob, time);
            let p1 = with_entry(d[c], new_entry(blob, time));
            &&& r == Ok::<(), FdbError>(())
            &&& m1.budget is None
            &&& m1.clears == m.clears
            &&& image::holds_image(m1, geo, d.insert(c, p1))
            &&& after_write(s, blob, time) == image::full_sec(geo, c, p1)
        }),
{
    let p = d[c];
    let n = p.recs.len() as int;
    let e = new_entry(blob, time);
    let p1 = with_entry(p, e);
    assert(image::page_at(m.bytes, geo, c, p));
    image::lemma_open_page(m.bytes, geo, c, p);
    image::lemma_entry(m.bytes, geo, c, p, n - 1);
    image::lemma_total(p.recs, 0, n);
    change::lemma_page_in_use(m.bytes, geo, c, p);
    assert(Page { store: SectorStoreStatus::Using, recs: p.recs } == p);
    change::lemma_write_log(m, s, blob, time);
    change::lemma_append(m.bytes, geo, c, p.recs, p.recs[0].time, blob, time);
    let m1 = model::write_log(m, s, blob, time).0;
    change::lemma_image_frame(m.bytes, m1.bytes, geo, d, c, p1);
    db::lemma_geo(geo);
    assert(p1.recs[n] == e);
    assert(p1.recs[0] == p.recs[0]);
}

/// Taking an empty current sector into use and writing the first log to it.
proof fn lemma_write_first(
    st: TsState,
    d: Map<int, Page>,
    c: int,
    blob: Seq<u8>,
    time: int,
)
    requires
        image::holds_image(st.m, st.geo, d),
        st.m.budget is None,
        db::is_sector(st.geo, c),
        d[c] == change::fresh(),
        st.cur == image::head_sec(st.geo, c, change::fresh()),
        blob.len() + 48 <= st.geo.sec,
        0 < time <= 0x7FFF_FFFF,
    ensures
        ({
            let (st1, r1) = model::begin_sector(st, time);
            let (m2, r2) = model::write_log(st1.m, st1.cur, blob, time);
            let p1 = with_entry(change::fresh(), new_entry(blob, time));
            &&& r1 == Ok::<(), FdbError>(())
            &&& r2 == Ok::<(), FdbError>(())
            &&& st1 == (TsState { m: st1.m, cur: st1.cur, ..st })
            &&& m2.budget is None
            &&& m2.clears == st.m.clears
            &&& image::holds_image(m2, st.geo, d.insert(c, p1))
            &&& after_write(st1.cur, blob, time) == image::full_sec(st.geo, c, p1)
        }),
{
    let geo = st.geo;
    let m = st.m;
    let e = new_entry(blob, time);
    let p1 = with_entry(change::fresh(), e);
    assert(image::page_at(m.bytes, geo, c, d[c]));
    image::lemma_open_page(m.bytes, geo, c, change::fresh());
    let (st1, r1) = model::begin_sector(st, time);
    let ma = flash::put_status(m, c, 2, true);
    flash::lemma_clears_status(m, c, 1, 2);
    assert(m.accepts(c, 1));
    assert(ma.bytes =~= m.bytes.update(c, status::status_byte(2)));
    assert(ma.accepts(c + 5, 4));
    flash::lemma_clears_erased(ma, c + 5, codec::le32_bytes(codec::as_word(time)));
    assert(st1.m.bytes =~= change::begun(m.bytes, c, time));
    change::lemma_begun(m.bytes, geo, c, time);
    let none = Seq::<Entry>::empty();
    assert(image::total(none, 0) == 0);
    change::lemma_write_log(st1.m, st1.cur, blob, time);
    change::lemma_append(st1.m.bytes, geo, c, none, time, blob, time);
    let m2 = model::write_log(st1.m, st1.cur, blob, time).0;
    assert(p1.recs =~= none.push(e));
    assert(image::total(p1.recs, 1) == blob.len());
    assert(change::same_but(m.bytes, m2.bytes, geo, c)) by {
        assert forall|j: int|
            0 <= j < m.bytes.len() && !(c <= j < c + geo.sec) implies #[trigger] m2.bytes[j]
            == m.bytes[j] by {
            assert(st1.m.bytes[j] == m.bytes[j]);
        }
    }
    change::lemma_image_frame(m.bytes, m2.bytes, geo, d, c, p1);
    db::lemma_geo(geo);
}

/// One more log in a sector behind which there are none adds it to all logs.
proof fn lemma_entries_push(
    geo: Geo,
    d: Map<int, Page>,
    d1: Map<int, Page>,
    o: int,
    t: int,
    c: int,
    e: Entry,
)
    requires
        ring::on_walk(geo, o, t),
        db::is_sector(geo, c),
        ring::dist(geo, o, c) >= t,
        d1[c].recs == d[c].recs.push(e),
        forall|x: int| db::is_sector(geo, x) && x != c ==> (#[trigger] d1[x]).recs == d[x].recs,
        forall|x: int|
            db::is_sector(geo, x) && ring::dist(geo, o, x) > ring::dist(geo, o, c) ==> (
            #[trigger] d[x]).recs.len() == 0,
    ensures
        entries(geo, d1, o, t) == entries(geo, d, o, t).push(e),
    decreases geo.max - t,
{
    let at = ring::at(geo, o, t);
    ring::lemma_walk(geo, o, t);
    ring::lemma_ahead(geo, o, t, c);
    ring::lemma_dist(geo, o, c);
    if at == c {
        if t + geo.sec < geo.max {
            lemma_entries_none(geo, d, o, t + geo.sec);
            assert forall|x: int|
                db::is_sector(geo, x) && ring::dist(geo, o, x) >= t + geo.sec implies (
            #[trigger] d1[x]).recs.len() == 0 by {
                assert(d[x].recs.len() == 0);
            }
            lemma_entries_none(geo, d1, o, t + geo.sec);
        }
        assert(entries(geo, d1, o, t) =~= entries(geo, d, o, t).push(e));
    } else {
        lemma_entries_push(geo, d, d1, o, t + geo.sec, c, e);
        assert(d1[at].recs == d[at].recs);
        assert(entries(geo, d1, o, t) =~= entries(geo, d, o, t).push(e));
    }
}

/// Where no sector holds logs there are none.
pub proof fn lemma_entries_none(geo: Geo, d: Map<int, Page>, o: int, t: int)
    requires
        ring::on_walk(geo, o, t),
        forall|x: int|
            db::is_sector(geo, x) && ring::dist(geo, o, x) >= t ==> (
            #[trigger] d[x]).recs.len() == 0,
    ensures
        entries(geo, d, o, t) == Seq::<Entry>::empty(),
    decreases geo.max - t,
{
    let at = ring::at(geo, o, t);
    ring::lemma_walk(geo, o, t);
    assert(d[at].recs.len() == 0);
    assert(d[at].recs =~= Seq::<Entry>::empty());
    if t + geo.sec < geo.max {
        lemma_entries_none(geo, d, o, t + geo.sec);
    }
}

/// The sector behind `o` on a ring.
pub open spec fn behind(geo: Geo, o: int) -> int {
    if o + geo.sec < geo.max {
        o + geo.sec
    } else {
        0
    }
}

/// How far sectors are from the sector behind `o`.
pub proof fn lemma_behind(geo: Geo, o: int, x: int)
    requires
        model::geo_ok(geo),
        db::is_sector(geo, o),
        db::is_sector(geo, x),
    ensures
        db::is_sector(geo, behind(geo, o)),
        x != o ==> ring::dist(geo, behind(geo, o), x) == ring::dist(geo, o, x) - geo.sec,
        ring::dist(geo, behind(geo, o), o) == geo.max - geo.sec,
        0 <= ring::dist(geo, o, x) <= geo.max - geo.sec,
        ring::dist(geo, o, x) + geo.sec == geo.max ==> behind(geo, x) == o,
{
    model::lemma_neighbours(geo, o, 0);
    model::lemma_neighbours(geo, x, 0);
    if x != o {
        db::lemma_apart(geo, x, o);
    }
    ring::lemma_dist(geo, o, x);
    ring::lemma_walk(geo, o, ring::dist(geo, o, x));
}

/// The logs once the walk starts one sector later and the sector that was the first comes
/// last.
proof fn lemma_entries_rotate(
    geo: Geo,
    d: Map<int, Page>,
    d1: Map<int, Page>,
    o: int,
    t: int,
)
    requires
        model::geo_ok(geo),
        db::is_sector(geo, o),
        ring::on_walk(geo, behind(geo, o), t),
        forall|x: int| db::is_sector(geo, x) && x != o ==> (#[trigger] d1[x]).recs == d[x].recs,
    ensures
        entries(geo, d1, behind(geo, o), t) == (if t + geo.sec < geo.max {
            entries(geo, d, o, t + geo.sec) + d1[o].recs
        } else {
            d1[o].recs
        }),
    decreases geo.max - t,
{
    let o1 = behind(geo, o);
    let at = ring::at(geo, o1, t);
    ring::lemma_walk(geo, o1, t);
    ring::lemma_first(geo, o);
    ring::lemma_walk(geo, o, 0);
    lemma_behind(geo, o, at);
    if t + geo.sec < geo.max {
        assert(at != o);
        assert(ring::dist(geo, o, at) == t + geo.sec);
        ring::lemma_dist(geo, o, at);
        assert(ring::at(geo, o, t + geo.sec) == at);
        lemma_entries_rotate(geo, d, d1, o, t + geo.sec);
        ring::lemma_walk(geo, o, t + geo.sec);
        assert(d1[at].recs == d[at].recs);
        if t + geo.sec + geo.sec < geo.max {
            let rest = entries(geo, d, o, t + geo.sec + geo.sec);
            assert(d[at].recs + (rest + d1[o].recs) =~= (d[at].recs + rest) + d1[o].recs);
        }
    } else {
        assert(at == o) by {
            if at != o {
                ring::lemma_dist(geo, o1, o);
            }
        }
    }
}

/// Whether a log of `size` bytes has no room in the current sector.
pub open spec fn no_room(st: TsState, d: Map<int, Page>, size: int) -> bool {
    let p = d[st.cur.at];
    p.store == SectorStoreStatus::Using && image::gap(st.geo, p) < 16 + size
}

/// Whether a database cannot take in a log of `size` bytes: its last sector is closed, or
/// has no room, and it does not roll over.
pub open spec fn is_full(st: TsState, d: Map<int, Page>, size: int) -> bool {
    ||| d[st.cur.at].store == SectorStoreStatus::Full
    ||| no_room(st, d, size) && st.cur.at + st.geo.sec == st.geo.max && !st.rollover
}

/// Whether taking in a log of `size` bytes takes the oldest sector.
pub open spec fn takes_oldest(st: TsState, d: Map<int, Page>, size: int) -> bool {
    no_room(st, d, size) && behind(st.geo, st.cur.at) == st.oldest
}

/// The latest time of the logs before the current sector.
proof fn lemma_latest(st: TsState, d: Map<int, Page>, x: int)
    requires
        good(st, d),
        db::is_sector(st.geo, x),
        d[x].recs.len() > 0,
    ensures
        d[x].recs.last().time <= st.last_time,
{
    let geo = st.geo;
    let c = st.cur.at;
    assert(image::page_at(st.m.bytes, geo, x, d[x]));
    image::lemma_open_page(st.m.bytes, geo, x, d[x]);
    assert(image::page_at(st.m.bytes, geo, c, d[c]));
    image::lemma_open_page(st.m.bytes, geo, c, d[c]);
    if x != c {
        ring::lemma_dist(geo, st.oldest, x);
        ring::lemma_dist(geo, st.oldest, c);
        assert(ring::dist(geo, st.oldest, x) < ring::dist(geo, st.oldest, c));
        assert(d[c].recs.len() > 0);
        assert(d[x].recs.last().time < d[c].recs[0].time);
        let n = d[c].recs.len() as int;
        if n > 1 {
            assert(d[c].recs[0].time < d[c].recs[n - 1].time);
        }
    }
}

/// Appending to the current sector.
proof fn lemma_append_here(st: TsState, d: Map<int, Page>, blob: Seq<u8>, time: int) -> (d1: Map<
    int,
    Page,
>)
    requires
        good(st, d),
        blob.len() <= st.max_len,
        blob.len() + 48 <= st.geo.sec,
        st.last_time < time <= 0x7FFF_FFFF,
        d[st.cur.at].store != SectorStoreStatus::Full,
        !no_room(st, d, blob.len() as int),
    ensures
        ({
            let (st1, r) = model::append(st, blob, time);
            &&& r == Ok::<(), FdbError>(())
            &&& good(st1, d1)
            &&& contents(st1, d1) == contents(st, d).push(new_entry(blob, time))
            &&& st1 == (TsState { m: st1.m, cur: st1.cur, last_time: time, ..st })
            &&& st1.m.clears == st.m.clears
            &&& packed(st.geo, st.max_len, d) ==> packed(st.geo, st.max_len, d1)
        }),
{
    let geo = st.geo;
    let o = st.oldest;
    let c = st.cur.at;
    let e = new_entry(blob, time);
    let p1 = with_entry(d[c], e);
    let d1 = d.insert(c, p1);
    assert(image::page_at(st.m.bytes, geo, c, d[c]));
    image::lemma_open_page(st.m.bytes, geo, c, d[c]);
    if d[c].store == SectorStoreStatus::Using {
        lemma_write_more(st.m, geo, d, c, st.cur, blob, time);
    } else {
        assert(d[c].recs =~= Seq::<Entry>::empty());
        assert(d[c] == change::fresh());
        lemma_write_first(st, d, c, blob, time);
    }
    assert forall|x: int|
        db::is_sector(geo, x) && ring::dist(geo, o, x) > ring::dist(geo, o, c) implies (
    #[trigger] d[x]).recs.len() == 0 by {
        assert(image::page_at(st.m.bytes, geo, x, d[x]));
        image::lemma_open_page(st.m.bytes, geo, x, d[x]);
    }
    ring::lemma_first(geo, o);
    ring::lemma_dist(geo, o, c);
    lemma_entries_push(geo, d, d1, o, 0, c, e);
    let (st1, r) = model::append(st, blob, time);
    assert(p1.recs.last() == e);
    assert(arranged(geo, d1, o, c)) by {
        assert forall|x: int|
            db::is_sector(geo, x) && ring::dist(geo, o, x) < ring::dist(geo, o, c) implies (
        #[trigger] d1[x]).store == SectorStoreStatus::Full by {
            assert(d1[x] == d[x]);
        }
        assert forall|x: int|
            db::is_sector(geo, x) && ring::dist(geo, o, x) > ring::dist(geo, o, c) implies (
        #[trigger] d1[x]).store == SectorStoreStatus::Empty by {
            assert(d1[x] == d[x]);
        }
    }
    assert(ordered(geo, d1, o)) by {
        assert forall|x: int, y: int|
            #![trigger d1[x], d1[y]]
            db::is_sector(geo, x) && db::is_sector(geo, y) && ring::dist(geo, o, x) < ring::dist(
                geo,
                o,
                y,
            ) && d1[x].recs.len() > 0 && d1[y].recs.len() > 0 implies d1[x].recs.last().time
            < d1[y].recs[0].time by {
            if y == c {
                assert(d1[x] == d[x]);
                if d[c].recs.len() > 0 {
                    assert(d1[c].recs[0] == d[c].recs[0]);
                    assert(d[x].recs.last().time < d[c].recs[0].time);
                }
            } else if x == c {
                assert(d1[y] == d[y]);
                assert(d[y].recs.len() == 0);
            } else {
                assert(d1[x] == d[x] && d1[y] == d[y]);
            }
        }
    }
    lemma_packed_entry(geo, st.max_len, d, c, d[c], e);
    d1
}

/// One more log that is not too long leaves the sectors packed.
proof fn lemma_packed_entry(
    geo: Geo,
    max_len: int,
    d: Map<int, Page>,
    c: int,
    p: Page,
    e: Entry,
)
    requires
        db::is_sector(geo, c),
        e.data.len() <= max_len,
        p == d[c] || p.recs.len() == 0,
    ensures
        packed(geo, max_len, d) ==> packed(geo, max_len, d.insert(c, with_entry(p, e))),
{
    let d1 = d.insert(c, with_entry(p, e));
    if packed(geo, max_len, d) {
        assert forall|x: int| db::is_sector(geo, x) implies packed_page(
            geo,
            max_len,
            #[trigger] d1[x],
        ) by {
            assert(packed_page(geo, max_len, d[x]));
            if x == c {
                assert forall|i: int| 0 <= i < d1[c].recs.len() implies (
                #[trigger] d1[c].recs[i]).data.len() <= max_len by {
                    if i < p.recs.len() {
                        assert(d1[c].recs[i] == p.recs[i]);
                    }
                }
            }
        }
    }
}

/// Closing a sector without room leaves the sectors packed.
proof fn lemma_packed_close(geo: Geo, max_len: int, d: Map<int, Page>, c: int)
    requires
        db::is_sector(geo, c),
        image::gap(geo, d[c]) < 16 + max_len,
    ensures
        packed(geo, max_len, d) ==> packed(geo, max_len, closed_at(d, c)),
{
    let d1 = closed_at(d, c);
    if packed(geo, max_len, d) {
        assert forall|x: int| db::is_sector(geo, x) implies packed_page(
            geo,
            max_len,
            #[trigger] d1[x],
        ) by {
            assert(packed_page(geo, max_len, d[x]));
        }
    }
}

/// Closing the current sector.
proof fn lemma_close(st: TsState, d: Map<int, Page>)
    requires
        good(st, d),
        d[st.cur.at].store == SectorStoreStatus::Using,
    ensures
        ({
            let (m1, r) = model::close_sector(st.m, st.cur, st.last_time);
            let c = st.cur.at;
            &&& r == Ok::<(), FdbError>(())
            &&& m1.budget is None
            &&& m1.clears == st.m.clears
            &&& image::holds_image(
                m1,
                st.geo,
                d.insert(c, (Page { store: SectorStoreStatus::Full, ..d[c] })),
            )
        }),
{
    let geo = st.geo;
    let c = st.cur.at;
    let n = d[c].recs.len() as int;
    assert(image::page_at(st.m.bytes, geo, c, d[c]));
    image::lemma_open_page(st.m.bytes, geo, c, d[c]);
    image::lemma_entry(st.m.bytes, geo, c, d[c], n - 1);
    change::lemma_close_bytes(st.m, st.cur, st.last_time);
    change::lemma_closed(st.m.bytes, geo, c, d[c]);
    let m1 = model::close_sector(st.m, st.cur, st.last_time).0;
    assert(st.cur.empty_idx - 16 == image::idx_at(c, n - 1));
    change::lemma_image_frame(
        st.m.bytes,
        m1.bytes,
        geo,
        d,
        c,
        Page { store: SectorStoreStatus::Full, ..d[c] },
    );
}

/// The image `d` with the sector at `c` closed.
pub open spec fn closed_at(d: Map<int, Page>, c: int) -> Map<int, Page> {
    d.insert(c, Page { store: SectorStoreStatus::Full, ..d[c] })
}

/// Going on to the next sector, which is empty.
proof fn lemma_turn_next(st: TsState, d: Map<int, Page>, c1: int) -> (sta: TsState)
    requires
        good(st, d),
        d[st.cur.at].store == SectorStoreStatus::Using,
        c1 == st.cur.at + st.geo.sec,
        db::is_sector(st.geo, c1),
        d[c1].store == SectorStoreStatus::Empty,
    ensures
        model::turn_page(st) == (sta, Ok::<(), FdbError>(())),
        sta == (TsState {
            m: sta.m,
            cur: image::head_sec(st.geo, c1, change::fresh()),
            ..st
        }),
        sta.m.budget is None,
        sta.m.clears == st.m.clears,
        image::holds_image(sta.m, st.geo, closed_at(d, st.cur.at)),
        closed_at(d, st.cur.at)[c1] == change::fresh(),
        d[c1].recs == Seq::<Entry>::empty(),
{
    let geo = st.geo;
    let c = st.cur.at;
    lemma_close(st, d);
    let da = closed_at(d, c);
    let (m1, r1) = model::close_sector(st.m, st.cur, st.last_time);
    assert(da[c1] == d[c1]);
    assert(image::page_at(m1.bytes, geo, c1, da[c1]));
    image::lemma_open_page(m1.bytes, geo, c1, da[c1]);
    assert(da[c1].recs =~= Seq::<Entry>::empty());
    image::lemma_head(m1, geo, c1, change::fresh());
    TsState { m: m1, cur: image::head_sec(geo, c1, change::fresh()), ..st }
}

/// How the sectors lie once the next one is the current one.
proof fn lemma_arranged_next(geo: Geo, d: Map<int, Page>, d1: Map<int, Page>, c: int, c1: int)
    requires
        model::geo_ok(geo),
        arranged(geo, d, 0, c),
        c1 == c + geo.sec,
        db::is_sector(geo, c1),
        d1[c].store == SectorStoreStatus::Full,
        d1[c1].store == SectorStoreStatus::Using,
        forall|x: int| x != c && x != c1 ==> (#[trigger] d1[x]).store == d[x].store,
    ensures
        arranged(geo, d1, 0, c1),
{
    assert forall|x: int|
        db::is_sector(geo, x) && ring::dist(geo, 0, x) < ring::dist(geo, 0, c1) implies (
    #[trigger] d1[x]).store == SectorStoreStatus::Full by {
        if x != c {
            ring::lemma_dist(geo, 0, c);
            if x > c {
                ring::lemma_ahead(geo, 0, c, x);
            }
            assert(d[x].store == SectorStoreStatus::Full);
        }
    }
    assert forall|x: int|
        db::is_sector(geo, x) && ring::dist(geo, 0, x) > ring::dist(geo, 0, c1) implies (
    #[trigger] d1[x]).store == SectorStoreStatus::Empty by {
        assert(d[x].store == SectorStoreStatus::Empty);
    }
}

/// Appending once the page was turned.
proof fn lemma_append_turned(
    st: TsState,
    sta: TsState,
    d: Map<int, Page>,
    c1: int,
    blob: Seq<u8>,
    time: int,
)
    requires
        st.cur.status == SectorStoreStatus::Using,
        st.cur.remain < 16 + blob.len(),
        blob.len() <= st.max_len,
        blob.len() + 48 <= st.geo.sec,
        st.last_time < time <= 0x7FFF_FFFF,
        0 < time,
        model::turn_page(st) == (sta, Ok::<(), FdbError>(())),
        sta.geo == st.geo,
        sta.m.budget is None,
        sta.cur == image::head_sec(st.geo, c1, change::fresh()),
        image::holds_image(sta.m, st.geo, d),
        db::is_sector(st.geo, c1),
        d[c1] == change::fresh(),
    ensures
        ({
            let (st1, r) = model::append(st, blob, time);
            let p1 = with_entry(change::fresh(), new_entry(blob, time));
            &&& r == Ok::<(), FdbError>(())
            &&& st1 == (TsState {
                m: st1.m,
                cur: image::full_sec(st.geo, c1, p1),
                last_time: time,
                ..sta
            })
            &&& st1.m.budget is None
            &&& st1.m.clears == sta.m.clears
            &&& image::holds_image(st1.m, st.geo, d.insert(c1, p1))
        }),
{
    lemma_write_first(sta, d, c1, blob, time);
}

/// The database once the next sector holds a first log.
proof fn lemma_next_good(st: TsState, d: Map<int, Page>, st1: TsState, c1: int, e: Entry) -> (d1: Map<
    int,
    Page,
>)
    requires
        good(st, d),
        d[st.cur.at].store == SectorStoreStatus::Using,
        st.oldest == 0,
        c1 == st.cur.at + st.geo.sec,
        db::is_sector(st.geo, c1),
        d[c1].recs == Seq::<Entry>::empty(),
        st.last_time < e.time,
        st1 == (TsState {
            m: st1.m,
            cur: image::full_sec(st.geo, c1, with_entry(change::fresh(), e)),
            last_time: e.time,
            ..st
        }),
        st1.m.budget is None,
        image::holds_image(
            st1.m,
            st.geo,
            closed_at(d, st.cur.at).insert(c1, with_entry(change::fresh(), e)),
        ),
    ensures
        good(st1, d1),
        contents(st1, d1) == contents(st, d).push(e),
        d1 == closed_at(d, st.cur.at).insert(c1, with_entry(change::fresh(), e)),
{
    let geo = st.geo;
    let c = st.cur.at;
    let p1 = with_entry(change::fresh(), e);
    let d1 = closed_at(d, c).insert(c1, p1);
    assert(p1.recs =~= seq![e]);
    assert(p1.recs.last() == e);
    assert forall|x: int|
        db::is_sector(geo, x) && ring::dist(geo, 0, x) > ring::dist(geo, 0, c1) implies (
    #[trigger] d[x]).recs.len() == 0 by {
        assert(d[x].store == SectorStoreStatus::Empty);
        assert(image::page_at(st.m.bytes, geo, x, d[x]));
        image::lemma_open_page(st.m.bytes, geo, x, d[x]);
    }
    ring::lemma_first(geo, 0);
    assert(d1[c1].recs =~= d[c1].recs.push(e));
    assert forall|x: int| db::is_sector(geo, x) && x != c1 implies (#[trigger] d1[x]).recs
        == d[x].recs by {}
    lemma_entries_push(geo, d, d1, 0, 0, c1, e);
    lemma_arranged_next(geo, d, d1, c, c1);
    assert forall|x: int|
        db::is_sector(geo, x) && x != c1 && (#[trigger] d1[x]).recs.len() > 0 implies ring::dist(
        geo,
        0,
        x,
    ) < ring::dist(geo, 0, c1) by {
        assert(d[x].recs.len() > 0);
    }
    lemma_ordered_new(st, d, d1, 0, c1, e);
    d1
}

/// Appending to the next sector, which is empty.
proof fn lemma_append_next(st: TsState, d: Map<int, Page>, blob: Seq<u8>, time: int) -> (d1: Map<
    int,
    Page,
>)
    requires
        good(st, d),
        blob.len() <= st.max_len,
        blob.len() + 48 <= st.geo.sec,
        st.last_time < time <= 0x7FFF_FFFF,
        no_room(st, d, blob.len() as int),
        behind(st.geo, st.cur.at) != st.oldest,
    ensures
        ({
            let (st1, r) = model::append(st, blob, time);
            &&& r == Ok::<(), FdbError>(())
            &&& good(st1, d1)
            &&& contents(st1, d1) == contents(st, d).push(new_entry(blob, time))
            &&& st1 == (TsState { m: st1.m, cur: st1.cur, last_time: time, ..st })
            &&& st1.m.clears == st.m.clears
            &&& packed(st.geo, st.max_len, d) ==> packed(st.geo, st.max_len, d1)
        }),
{
    let geo = st.geo;
    let c = st.cur.at;
    lemma_behind(geo, st.oldest, c);
    model::lemma_neighbours(geo, c, 0);
    let c1 = c + geo.sec;
    assert(st.oldest == 0 && c1 < geo.max);
    assert(d[c1].store == SectorStoreStatus::Empty);
    assert(image::page_at(st.m.bytes, geo, c, d[c]));
    image::lemma_entry(st.m.bytes, geo, c, d[c], d[c].recs.len() - 1);
    let sta = lemma_turn_next(st, d, c1);
    lemma_append_turned(st, sta, closed_at(d, c), c1, blob, time);
    let st1 = model::append(st, blob, time).0;
    lemma_packed_close(geo, st.max_len, d, c);
    lemma_packed_entry(
        geo,
        st.max_len,
        closed_at(d, c),
        c1,
        change::fresh(),
        new_entry(blob, time),
    );
    lemma_next_good(st, d, st1, c1, new_entry(blob, time))
}

/// A new last log comes later than all others.
proof fn lemma_ordered_new(
    st: TsState,
    d: Map<int, Page>,
    d1: Map<int, Page>,
    o1: int,
    c1: int,
    e: Entry,
)
    requires
        good(st, d),
        st.last_time < e.time,
        db::is_sector(st.geo, c1),
        d1[c1].recs == seq![e],
        forall|x: int|
            db::is_sector(st.geo, x) && x != c1 ==> (#[trigger] d1[x]).recs == d[x].recs,
        forall|x: int|
            db::is_sector(st.geo, x) && x != c1 && (#[trigger] d1[x]).recs.len() > 0 ==> ring::dist(
                st.geo,
                o1,
                x,
            ) < ring::dist(st.geo, o1, c1),
        forall|x: int, y: int|
            #![trigger d1[x], d1[y]]
            db::is_sector(st.geo, x) && db::is_sector(st.geo, y) && x != c1 && y != c1
                && ring::dist(st.geo, o1, x) < ring::dist(st.geo, o1, y) ==> ring::dist(
                st.geo,
                st.oldest,
                x,
            ) < ring::dist(st.geo, st.oldest, y),
    ensures
        ordered(st.geo, d1, o1),
{
    let geo = st.geo;
    assert forall|x: int, y: int|
        #![trigger d1[x], d1[y]]
        db::is_sector(geo, x) && db::is_sector(geo, y) && ring::dist(geo, o1, x) < ring::dist(
            geo,
            o1,
            y,
        ) && d1[x].recs.len() > 0 && d1[y].recs.len() > 0 implies d1[x].recs.last().time
        < d1[y].recs[0].time by {
        if y == c1 {
            assert(x != c1);
            lemma_latest(st, d, x);
        } else if x == c1 {
            assert(d1[y].recs.len() > 0);
        } else {
            assert(d[x].recs == d1[x].recs && d[y].recs == d1[y].recs);
        }
    }
}

/// Going on to the oldest sector, which is formatted.
proof fn lemma_turn_round(st: TsState, d: Map<int, Page>) -> (sta: TsState)
    requires
        good(st, d),
        d[st.cur.at].store == SectorStoreStatus::Using,
        behind(st.geo, st.cur.at) == st.oldest,
        st.cur.at + st.geo.sec == st.geo.max ==> st.rollover,
        st.oldest != st.cur.at,
        d[st.oldest].store == SectorStoreStatus::Full,
    ensures
        model::turn_page(st) == (sta, Ok::<(), FdbError>(())),
        sta == (TsState {
            m: sta.m,
            cur: image::head_sec(st.geo, st.oldest, change::fresh()),
            oldest: behind(st.geo, st.oldest),
            ..st
        }),
        sta.m.budget is None,
        sta.m.clears == st.m.clears,
        image::holds_image(
            sta.m,
            st.geo,
            closed_at(d, st.cur.at).insert(st.oldest, change::fresh()),
        ),
{
    let geo = st.geo;
    let o = st.oldest;
    let c = st.cur.at;
    model::lemma_neighbours(geo, c, 0);
    lemma_close(st, d);
    let da = closed_at(d, c);
    let (m1, r1) = model::close_sector(st.m, st.cur, st.last_time);
    assert(da[o] == d[o]);
    assert(image::page_at(m1.bytes, geo, o, da[o]));
    image::lemma_head(m1, geo, o, da[o]);
    change::lemma_format(m1, geo, o);
    let m2 = model::format(m1, geo, o).0;
    change::lemma_image_frame(m1.bytes, m2.bytes, geo, da, o, change::fresh());
    image::lemma_head(m2, geo, o, change::fresh());
    TsState {
        m: m2,
        cur: image::head_sec(geo, o, change::fresh()),
        oldest: behind(geo, o),
        ..st
    }
}

/// How the sectors lie once the oldest one is the current one.
proof fn lemma_arranged_round(geo: Geo, d: Map<int, Page>, d1: Map<int, Page>, o: int, c: int)
    requires
        model::geo_ok(geo),
        arranged(geo, d, o, c),
        ring::dist(geo, o, c) + geo.sec == geo.max,
        d1[c].store == SectorStoreStatus::Full,
        o != c,
        d1[o].store == SectorStoreStatus::Using,
        forall|x: int| x != c && x != o ==> (#[trigger] d1[x]).store == d[x].store,
    ensures
        arranged(geo, d1, behind(geo, o), o),
        forall|x: int|
            db::is_sector(geo, x) && x != o ==> ring::dist(geo, behind(geo, o), x) < ring::dist(
                geo,
                behind(geo, o),
                o,
            ) && #[trigger] ring::dist(geo, behind(geo, o), x) == ring::dist(geo, o, x) - geo.sec,
{
    let o1 = behind(geo, o);
    lemma_behind(geo, o, o);
    ring::lemma_dist(geo, o, c);
    assert forall|x: int| db::is_sector(geo, x) && x != o implies (#[trigger] d1[x]).store
        == SectorStoreStatus::Full by {
        lemma_behind(geo, o, x);
        if x != c {
            ring::lemma_dist(geo, o, x);
            assert(ring::dist(geo, o, x) < ring::dist(geo, o, c));
            assert(d[x].store == SectorStoreStatus::Full);
        }
    }
    assert forall|x: int| db::is_sector(geo, x) && x != o implies ring::dist(geo, o1, x)
        < ring::dist(geo, o1, o) && #[trigger] ring::dist(geo, o1, x) == ring::dist(geo, o, x)
        - geo.sec by {
        lemma_behind(geo, o, x);
    }
}

/// The database once the oldest sector was formatted and holds a first log.
proof fn lemma_round_good(st: TsState, d: Map<int, Page>, st1: TsState, e: Entry) -> (d1: Map<
    int,
    Page,
>)
    requires
        good(st, d),
        d[st.cur.at].store == SectorStoreStatus::Using,
        ring::dist(st.geo, st.oldest, st.cur.at) + st.geo.sec == st.geo.max,
        st.oldest != st.cur.at,
        st.last_time < e.time,
        st1 == (TsState {
            m: st1.m,
            cur: image::full_sec(st.geo, st.oldest, with_entry(change::fresh(), e)),
            oldest: behind(st.geo, st.oldest),
            last_time: e.time,
            ..st
        }),
        st1.m.budget is None,
        image::holds_image(
            st1.m,
            st.geo,
            closed_at(d, st.cur.at).insert(st.oldest, change::fresh()).insert(
                st.oldest,
                with_entry(change::fresh(), e),
            ),
        ),
    ensures
        good(st1, d1),
        contents(st1, d1) == contents(st, d).skip(d[st.oldest].recs.len() as int).push(e),
        d1 == closed_at(d, st.cur.at).insert(st.oldest, with_entry(change::fresh(), e)),
{
    let geo = st.geo;
    let o = st.oldest;
    let c = st.cur.at;
    let o1 = behind(geo, o);
    let p1 = with_entry(change::fresh(), e);
    let d1 = closed_at(d, c).insert(o, change::fresh()).insert(o, p1);
    assert(p1.recs =~= seq![e]);
    assert(p1.recs.last() == e);
    lemma_behind(geo, o, c);
    db::lemma_geo(geo);
    // The logs.
    ring::lemma_first(geo, o);
    ring::lemma_first(geo, o1);
    assert forall|x: int| db::is_sector(geo, x) && x != o implies (#[trigger] d1[x]).recs
        == d[x].recs by {}
    lemma_entries_rotate(geo, d, d1, o, 0);
    let all = entries(geo, d, o, 0);
    let rest = entries(geo, d, o, geo.sec);
    assert(all == d[o].recs + rest);
    assert(all.skip(d[o].recs.len() as int) =~= rest);
    assert(rest + d1[o].recs =~= rest.push(e));
    // How they lie.
    lemma_arranged_round(geo, d, d1, o, c);
    assert forall|x: int, y: int|
        #![trigger d1[x], d1[y]]
        db::is_sector(geo, x) && db::is_sector(geo, y) && x != o && y != o && ring::dist(
            geo,
            o1,
            x,
        ) < ring::dist(geo, o1, y) implies ring::dist(geo, o, x) < ring::dist(geo, o, y) by {}
    lemma_ordered_new(st, d, d1, o1, o, e);
    assert(d1 =~= closed_at(d, c).insert(o, p1));
    d1
}

/// Appending to the oldest sector, which is formatted for it.
proof fn lemma_append_round(st: TsState, d: Map<int, Page>, blob: Seq<u8>, time: int) -> (d1: Map<
    int,
    Page,
>)
    requires
        good(st, d),
        blob.len() <= st.max_len,
        blob.len() + 48 <= st.geo.sec,
        st.last_time < time <= 0x7FFF_FFFF,
        takes_oldest(st, d, blob.len() as int),
        st.cur.at + st.geo.sec == st.geo.max ==> st.rollover,
    ensures
        ({
            let (st1, r) = model::append(st, blob, time);
            &&& r == Ok::<(), FdbError>(())
            &&& good(st1, d1)
            &&& contents(st1, d1) == contents(st, d).skip(d[st.oldest].recs.len() as int).push(
                new_entry(blob, time),
            )
            &&& st1.last_time == time
            &&& st1.m.clears == st.m.clears
            &&& st1.geo == st.geo
            &&& st1.max_len == st.max_len
            &&& st1.rollover == st.rollover
            &&& st1.oldest == behind(st.geo, st.oldest)
            &&& packed(st.geo, st.max_len, d) ==> packed(st.geo, st.max_len, d1)
        }),
{
    let geo = st.geo;
    let o = st.oldest;
    let c = st.cur.at;
    db::lemma_geo(geo);
    lemma_behind(geo, o, c);
    lemma_behind(geo, c, o);
    assert(o != c);
    assert(ring::dist(geo, o, c) + geo.sec == geo.max);
    ring::lemma_first(geo, o);
    assert(ring::dist(geo, o, o) == 0);
    assert(d[o].store == SectorStoreStatus::Full);
    assert(image::page_at(st.m.bytes, geo, c, d[c]));
    image::lemma_entry(st.m.bytes, geo, c, d[c], d[c].recs.len() - 1);
    let sta = lemma_turn_round(st, d);
    let da = closed_at(d, c).insert(o, change::fresh());
    lemma_append_turned(st, sta, da, o, blob, time);
    let st1 = model::append(st, blob, time).0;
    lemma_packed_close(geo, st.max_len, d, c);
    lemma_packed_entry(geo, st.max_len, closed_at(d, c), o, change::fresh(), new_entry(blob, time));
    lemma_round_good(st, d, st1, new_entry(blob, time))
}

/// Appending to a database that is full closes it, and keeps its logs.
proof fn lemma_append_full(st: TsState, d: Map<int, Page>, blob: Seq<u8>, time: int) -> (d1: Map<
    int,
    Page,
>)
    requires
        good(st, d),
        blob.len() <= st.max_len,
        st.last_time < time <= 0x7FFF_FFFF,
        is_full(st, d, blob.len() as int),
    ensures
        ({
            let (st1, r) = model::append(st, blob, time);
            &&& r == Err::<(), FdbError>(FdbError::SavedFull)
            &&& good(st1, d1)
            &&& contents(st1, d1) == contents(st, d)
            &&& st1 == (TsState { m: st1.m, cur: st1.cur, ..st })
            &&& st1.m.clears == st.m.clears
            &&& d1[st1.cur.at].store == SectorStoreStatus::Full
            &&& packed(st.geo, st.max_len, d) ==> packed(st.geo, st.max_len, d1)
        }),
{
    let geo = st.geo;
    let o = st.oldest;
    let c = st.cur.at;
    if d[c].store == SectorStoreStatus::Full {
        d
    } else {
        lemma_close(st, d);
        lemma_packed_close(geo, st.max_len, d, c);
        let full = Page { store: SectorStoreStatus::Full, ..d[c] };
        let d1 = d.insert(c, full);
        let (st1, r) = model::append(st, blob, time);
        lemma_behind(geo, o, c);
        assert(o == 0);
        ring::lemma_first(geo, o);
        lemma_entries_same(geo, d, d1, o, 0);
        assert(arranged(geo, d1, o, c)) by {
            assert forall|x: int|
                db::is_sector(geo, x) && ring::dist(geo, o, x) < ring::dist(geo, o, c) implies (
            #[trigger] d1[x]).store == SectorStoreStatus::Full by {
                assert(d1[x] == d[x]);
            }
            assert forall|x: int|
                db::is_sector(geo, x) && ring::dist(geo, o, x) > ring::dist(geo, o, c) implies (
            #[trigger] d1[x]).store == SectorStoreStatus::Empty by {
                assert(d1[x] == d[x]);
            }
        }
        assert(ordered(geo, d1, o)) by {
            assert forall|x: int, y: int|
                #![trigger d1[x], d1[y]]
                db::is_sector(geo, x) && db::is_sector(geo, y) && ring::dist(geo, o, x)
                    < ring::dist(geo, o, y) && d1[x].recs.len() > 0 && d1[y].recs.len()
                    > 0 implies d1[x].recs.last().time < d1[y].recs[0].time by {
                assert(d1[x].recs == d[x].recs && d1[y].recs == d[y].recs);
            }
        }
        d1
    }
}

/// The logs depend on the logs of the sectors alone.
proof fn lemma_entries_same(geo: Geo, d: Map<int, Page>, d1: Map<int, Page>, o: int, t: int)
    requires
        ring::on_walk(geo, o, t),
        forall|x: int| db::is_sector(geo, x) ==> (#[trigger] d1[x]).recs == d[x].recs,
    ensures
        entries(geo, d1, o, t) == entries(geo, d, o, t),
    decreases geo.max - t,
{
    let at = ring::at(geo, o, t);
    ring::lemma_walk(geo, o, t);
    assert(d1[at].recs == d[at].recs);
    if t + geo.sec < geo.max {
        lemma_entries_same(geo, d, d1, o, t + geo.sec);
    }
}

/// Appending a log that comes later than the last one, is not too long and fits an empty
/// sector adds it to the logs of the database; where it takes the oldest sector the logs of that sector go. A
/// database that is full and does not roll over reports `SavedFull` and keeps its logs.
/// Sectors that are packed stay so. Programming only clears bits.
pub proof fn append_adds_the_log(st: TsState, d: Map<int, Page>, blob: Seq<u8>, time: int) -> (d1: Map<
    int,
    Page,
>)
    requires
        good(st, d),
        blob.len() <= st.max_len,
        blob.len() + 48 <= st.geo.sec || is_full(st, d, blob.len() as int),
        st.last_time < time <= 0x7FFF_FFFF,
    ensures
        ({
            let (st1, r) = model::append(st, blob, time);
            let size = blob.len() as int;
            let before = contents(st, d);
            &&& good(st1, d1)
            &&& r == (if is_full(st, d, size) {
                Err(FdbError::SavedFull)
            } else {
                Ok(())
            })
            &&& contents(st1, d1) == (if is_full(st, d, size) {
                before
            } else if takes_oldest(st, d, size) {
                before.skip(d[st.oldest].recs.len() as int).push(new_entry(blob, time))
            } else {
                before.push(new_entry(blob, time))
            })
            &&& r is Ok ==> st1.last_time == time
            &&& st1.m.clears == st.m.clears
            &&& st1.geo == st.geo
            &&& st1.max_len == st.max_len
            &&& st1.rollover == st.rollover
            &&& st1.oldest == (if !is_full(st, d, size) && takes_oldest(st, d, size) {
                behind(st.geo, st.oldest)
            } else {
                st.oldest
            })
            &&& packed(st.geo, st.max_len, d) ==> packed(st.geo, st.max_len, d1)
        }),
{
    let size = blob.len() as int;
    lemma_behind(st.geo, st.oldest, st.cur.at);
    if is_full(st, d, size) {
        lemma_append_full(st, d, blob, time)
    } else if takes_oldest(st, d, size) {
        lemma_append_round(st, d, blob, time)
    } else if no_room(st, d, size) {
        lemma_append_next(st, d, blob, time)
    } else {
        lemma_append_here(st, d, blob, time)
    }
}

/// Whole sectors alone are ever erased: appending erases one sector at a time.
pub proof fn only_whole_sectors_are_erased(
    st: TsState,
    d: Map<int, Page>,
    blob: Seq<u8>,
    time: int,
)
    requires
        good(st, d),
        time <= 0x7FFF_FFFF,
        blob.len() + 48 <= st.geo.sec || blob.len() > st.max_len || is_full(
            st,
            d,
            blob.len() as int,
        ),
    ensures
        db::whole_sectors(st.geo, model::append(st, blob, time).0.m.erases),
{
    if blob.len() > st.max_len || time <= st.last_time {
        append_refuses(st, blob, time);
    } else {
        append_adds_the_log(st, d, blob, time);
    }
}

/// A log that is too long, or does not come later than the last one, is refused, and
/// nothing changes.
pub proof fn append_refuses(st: TsState, blob: Seq<u8>, time: int)
    requires
        blob.len() > st.max_len || time <= st.last_time,
    ensures
        model::append(st, blob, time) == (st, Err::<(), FdbError>(FdbError::WriteErr)),
{
}

} // verus!
