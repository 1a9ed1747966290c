//! What opening and cleaning the time-series database and marking its logs promise: a
//! database that is opened again holds the same logs, a medium that holds none comes up
//! empty, and a status that is set changes one log.
use vstd::prelude::*;

use crate::codec;
use crate::db;
use crate::db::Geo;
use crate::def;
use crate::def::{SectorStoreStatus, TslStatus, DATA_UNUSED};
use crate::error::FdbError;
use crate::flash;
use crate::ring;
use crate::status;
use crate::storage::Medium;
use crate::ts_change as change;
use crate::ts_image as image;
use crate::ts_image::{Entry, Page};
use crate::ts_laws as laws;
use crate::ts_model as model;
use crate::ts_model::{Log, Survey, TsSec, TsState};

verus! {

// --------------------------------------------------------------------------- cleaning

/// The image of a database whose sectors are all fresh.
pub open spec fn blank_image() -> Map<int, Page> {
    Map::new(|a: int| true, |a: int| change::fresh())
}

/// Formatting every sector from the one at `t` on.
proof fn lemma_format_from(m: Medium, geo: Geo, t: int)
    requires
        model::geo_ok(geo),
        m.budget is None,
        geo.max <= m.bytes.len(),
        ring::on_walk(geo, 0, t),
        forall|x: int|
            db::is_sector(geo, x) && x < t ==> #[trigger] image::page_at(
                m.bytes,
                geo,
                x,
                change::fresh(),
            ),
    ensures
        ({
            let m1 = model::format_from(m, geo, t, t);
            &&& m1.budget is None
            &&& m1.clears == m.clears
            &&& db::whole_sectors(geo, m.erases) ==> db::whole_sectors(geo, m1.erases)
            &&& m.flushed.len() == m.bytes.len() ==> m1.flushed.len() == m1.bytes.len()
            &&& m1.bytes.len() == m.bytes.len()
            &&& forall|x: int|
                db::is_sector(geo, x) ==> #[trigger] image::page_at(
                    m1.bytes,
                    geo,
                    x,
                    change::fresh(),
                )
        }),
    decreases geo.max - t,
{
    ring::lemma_walk(geo, 0, t);
    assert(ring::at(geo, 0, t) == t);
    change::lemma_format(m, geo, t);
    let m1 = model::format(m, geo, t).0;
    assert forall|x: int| db::is_sector(geo, x) && x < t + geo.sec implies
        #[trigger] image::page_at(m1.bytes, geo, x, change::fresh()) by {
        if x != t {
            db::lemma_apart(geo, x, t);
            assert(image::page_at(m.bytes, geo, x, change::fresh()));
            change::lemma_page_frame(m.bytes, m1.bytes, geo, x, change::fresh());
        }
    }
    if t + geo.sec < geo.max {
        lemma_format_from(m1, geo, t + geo.sec);
    }
}

/// A database with nothing but fresh sectors.
proof fn lemma_blank(st: TsState)
    requires
        model::geo_ok(st.geo),
        st.geo.max <= st.m.bytes.len() <= 0xFFFF_FFFF,
        st.m.budget is None,
        db::whole_sectors(st.geo, st.m.erases),
        st.m.flushed.len() == st.m.bytes.len(),
        0 <= st.max_len,
        st.oldest == 0,
        st.last_time == 0,
        st.cur == image::head_sec(st.geo, 0, change::fresh()),
        forall|x: int|
            db::is_sector(st.geo, x) ==> #[trigger] image::page_at(
                st.m.bytes,
                st.geo,
                x,
                change::fresh(),
            ),
    ensures
        laws::good(st, blank_image()),
        laws::contents(st, blank_image()) == Seq::<Entry>::empty(),
        model::collect(st) == Seq::<Log>::empty(),
{
    let geo = st.geo;
    let d = blank_image();
    ring::lemma_first(geo, 0);
    assert forall|a: int| db::is_sector(geo, a) implies image::page_at(
        st.m.bytes,
        geo,
        a,
        #[trigger] d[a],
    ) by {}
    assert(laws::good(st, d));
    laws::lemma_entries_none(geo, d, 0, 0);
    laws::collect_gives_the_contents(st, d);
    assert(model::collect(st) =~= Seq::<Log>::empty());
}

/// Cleaning a database, whatever its medium holds, leaves no log, and packed sectors.
/// Programming only clears bits.
pub proof fn clean_leaves_no_log(st: TsState)
    requires
        model::geo_ok(st.geo),
        st.geo.max <= st.m.bytes.len() <= 0xFFFF_FFFF,
        st.m.budget is None,
        db::whole_sectors(st.geo, st.m.erases),
        st.m.flushed.len() == st.m.bytes.len(),
        0 <= st.max_len,
    ensures
        laws::good(model::clean(st), blank_image()),
        laws::contents(model::clean(st), blank_image()) == Seq::<Entry>::empty(),
        laws::packed(st.geo, st.max_len, blank_image()),
        model::collect(model::clean(st)) == Seq::<Log>::empty(),
        model::clean(st).m.clears == st.m.clears,
{
    ring::lemma_first(st.geo, 0);
    lemma_format_from(st.m, st.geo, 0);
    let st1 = model::clean(st);
    image::lemma_head(st1.m, st.geo, 0, change::fresh());
    lemma_blank(st1);
}

// -------------------------------------------------------------------------- reopening

/// How the sectors of a database lie in the order of their addresses.
proof fn lemma_by_address(geo: Geo, d: Map<int, Page>, o: int, c: int, x: int)
    requires
        model::geo_ok(geo),
        laws::arranged(geo, d, o, c),
        db::is_sector(geo, x),
    ensures
        x < c ==> d[x].store == SectorStoreStatus::Full,
        x > c ==> d[x].store == (if o == 0 {
            SectorStoreStatus::Empty
        } else {
            SectorStoreStatus::Full
        }),
{
    if o != 0 && x != c {
        ring::lemma_dist(geo, o, x);
        ring::lemma_dist(geo, o, c);
        ring::lemma_walk(geo, o, ring::dist(geo, o, x));
        assert(ring::dist(geo, o, x) < ring::dist(geo, o, c));
    }
}

/// What a survey knows when it comes to the sector at `t`.
pub open spec fn surveyed(geo: Geo, d: Map<int, Page>, o: int, c: int, t: int, v: Survey) -> bool {
    let p = d[c];
    &&& !v.failed
    &&& t <= c ==> v.cur.at == DATA_UNUSED && v.empty == 0
    &&& t > c ==> v.cur == (if p.store == SectorStoreStatus::Using {
        image::full_sec(geo, c, p)
    } else {
        image::head_sec(geo, c, p)
    })
    &&& t > c && p.store == SectorStoreStatus::Empty ==> v.empty > 0 && v.empty_at == t - geo.sec
    &&& t > c && p.store == SectorStoreStatus::Using ==> (v.empty > 0 <==> (o == 0 && t > c
        + geo.sec)) && (v.empty > 0 ==> v.empty_at == t - geo.sec) && v.empty >= 0
}

proof fn lemma_survey(
    m: Medium,
    geo: Geo,
    max_len: int,
    d: Map<int, Page>,
    o: int,
    c: int,
    t: int,
    v: Survey,
)
    requires
        image::holds_image(m, geo, d),
        laws::arranged(geo, d, o, c),
        d[c].store != SectorStoreStatus::Full,
        ring::on_walk(geo, 0, t),
        surveyed(geo, d, o, c, t, v),
    ensures
        surveyed(geo, d, o, c, geo.max, model::survey_from(m, geo, max_len, t, t, v)),
    decreases geo.max - t,
{
    ring::lemma_walk(geo, 0, t);
    assert(ring::at(geo, 0, t) == t);
    assert(image::page_at(m.bytes, geo, t, d[t]));
    image::lemma_sixteen(geo);
    image::lemma_full(m, geo, max_len, t, d[t]);
    lemma_by_address(geo, d, o, c, t);
    assert(image::page_at(m.bytes, geo, c, d[c]));
    image::lemma_open_page(m.bytes, geo, c, d[c]);
    let s = model::sector_full(m, geo, max_len, t, model::blank_sec()).0;
    let none = v.cur.at == DATA_UNUSED;
    assert(t > c ==> !none);
    let v1 = if s.status == SectorStoreStatus::Using {
        Survey { cur: s, ..v }
    } else if s.status == SectorStoreStatus::Empty {
        Survey {
            cur: if v.empty == 0 && none {
                s
            } else {
                v.cur
            },
            empty: v.empty + 1,
            empty_at: t,
            ..v
        }
    } else {
        v
    };
    if t > c {
        db::lemma_apart(geo, t, c);
    } else if t < c {
        db::lemma_apart(geo, t, c);
    }
    assert(surveyed(geo, d, o, c, t + geo.sec, v1));
    if t + geo.sec < geo.max {
        lemma_survey(m, geo, max_len, d, o, c, t + geo.sec, v1);
    }
}

/// A survey of full sectors finds nothing to go on with.
proof fn lemma_survey_full(m: Medium, geo: Geo, max_len: int, d: Map<int, Page>, t: int, v: Survey)
    requires
        image::holds_image(m, geo, d),
        forall|x: int|
            db::is_sector(geo, x) ==> (#[trigger] d[x]).store == SectorStoreStatus::Full,
        ring::on_walk(geo, 0, t),
    ensures
        model::survey_from(m, geo, max_len, t, t, v) == v,
    decreases geo.max - t,
{
    ring::lemma_walk(geo, 0, t);
    assert(ring::at(geo, 0, t) == t);
    assert(image::page_at(m.bytes, geo, t, d[t]));
    image::lemma_sixteen(geo);
    image::lemma_full(m, geo, max_len, t, d[t]);
    if t + geo.sec < geo.max {
        lemma_survey_full(m, geo, max_len, d, t + geo.sec, v);
    }
}

/// Opening a database again: it holds the same logs, and goes on where it was.
pub proof fn reopen_keeps_the_logs(st: TsState, d: Map<int, Page>, fixed: bool)
    requires
        laws::good(st, d),
    ensures
        ({
            let (st1, r) = model::open_db(st.m, st.geo, st.max_len, fixed);
            &&& r is Ok
            &&& laws::good(st1, d)
            &&& st1 == (TsState { ready: true, fixed, rollover: true, cur: st1.cur, ..st })
            &&& st1.cur.at == st.cur.at
            &&& d[st.cur.at].store != SectorStoreStatus::Full ==> st1.cur == st.cur
            &&& model::collect(st1) == model::collect(st)
        }),
{
    let geo = st.geo;
    let o = st.oldest;
    let c = st.cur.at;
    let m = st.m;
    ring::lemma_first(geo, 0);
    let none = TsSec { at: DATA_UNUSED as int, ..model::blank_sec() };
    let v0 = Survey { cur: none, empty: 0, empty_at: 0, failed: false };
    let v = model::survey(m, geo, st.max_len);
    assert(image::page_at(m.bytes, geo, c, d[c]));
    image::lemma_open_page(m.bytes, geo, c, d[c]);
    image::lemma_sixteen(geo);
    image::lemma_full(m, geo, st.max_len, c, d[c]);
    let (st1, r) = model::open_db(m, geo, st.max_len, fixed);
    if d[c].store == SectorStoreStatus::Full {
        assert forall|x: int| db::is_sector(geo, x) implies (#[trigger] d[x]).store
            == SectorStoreStatus::Full by {
            lemma_by_address(geo, d, o, c, x);
            if x > c {
                db::lemma_apart(geo, x, c);
            }
        }
        lemma_survey_full(m, geo, st.max_len, d, 0, v0);
    } else {
        assert(surveyed(geo, d, o, c, 0, v0));
        lemma_survey(m, geo, st.max_len, d, o, c, 0, v0);
        assert(surveyed(geo, d, o, c, geo.max, v));
        assert(v.cur.at == c);
        laws::lemma_behind(geo, o, c);
        let latest = if v.empty > 0 {
            v.empty_at
        } else {
            v.cur.at
        };
        assert(laws::behind(geo, latest) == o);
    }
    assert(st1.oldest == o);
    assert(laws::good(st1, d));
    ring::lemma_first(geo, o);
    laws::lemma_collect_from(st, d, 0);
    laws::lemma_collect_from(st1, d, 0);
}

// --------------------------------------------------------------- between two sectors

/// What a survey knows when it comes to the sector at `t`, where the sectors from `c` to `e` are
/// empty and all others full.
pub open spec fn surveyed_gap(geo: Geo, d: Map<int, Page>, c: int, e: int, t: int, v: Survey) -> bool {
    &&& !v.failed
    &&& v.empty >= 0
    &&& t <= c ==> v.cur.at == DATA_UNUSED && v.empty == 0
    &&& t > c ==> v.cur == image::head_sec(geo, c, d[c]) && v.empty > 0 && v.empty_at == (if t
        <= e {
        t - geo.sec
    } else {
        e
    })
}

proof fn lemma_survey_gap(
    m: Medium,
    geo: Geo,
    max_len: int,
    d: Map<int, Page>,
    c: int,
    e: int,
    t: int,
    v: Survey,
)
    requires
        image::holds_image(m, geo, d),
        db::is_sector(geo, c),
        db::is_sector(geo, e),
        c <= e,
        forall|x: int|
            db::is_sector(geo, x) ==> (#[trigger] d[x]).store == (if c <= x <= e {
                SectorStoreStatus::Empty
            } else {
                SectorStoreStatus::Full
            }),
        ring::on_walk(geo, 0, t),
        surveyed_gap(geo, d, c, e, t, v),
    ensures
        surveyed_gap(geo, d, c, e, geo.max, model::survey_from(m, geo, max_len, t, t, v)),
    decreases geo.max - t,
{
    ring::lemma_walk(geo, 0, t);
    assert(ring::at(geo, 0, t) == t);
    assert(image::page_at(m.bytes, geo, t, d[t]));
    image::lemma_sixteen(geo);
    image::lemma_full(m, geo, max_len, t, d[t]);
    image::lemma_head(m, geo, t, d[t]);
    let s = model::sector_full(m, geo, max_len, t, model::blank_sec()).0;
    let none = v.cur.at == DATA_UNUSED;
    assert(t > c ==> !none);
    let v1 = if s.status == SectorStoreStatus::Empty {
        Survey {
            cur: if v.empty == 0 && none {
                s
            } else {
                v.cur
            },
            empty: v.empty + 1,
            empty_at: t,
            ..v
        }
    } else {
        v
    };
    if t != c {
        db::lemma_apart(geo, t, c);
    }
    if t != e {
        db::lemma_apart(geo, t, e);
    }
    assert(surveyed_gap(geo, d, c, e, t + geo.sec, v1));
    if t + geo.sec < geo.max {
        lemma_survey_gap(m, geo, max_len, d, c, e, t + geo.sec, v1);
    }
}

/// Opening a database that was left between two sectors: one was closed, and no log was written
/// to the next yet. It goes on with the first empty sector, the one behind the last empty sector
/// is the oldest, and the time of the last log before it is the latest, so that no log that does
/// not come later is taken.
pub proof fn opening_between_two_sectors(
    m: Medium,
    geo: Geo,
    max_len: int,
    fixed: bool,
    d: Map<int, Page>,
    c: int,
    e: int,
)
    requires
        image::holds_image(m, geo, d),
        db::is_sector(geo, c),
        db::is_sector(geo, e),
        c <= e,
        c > 0 || e + geo.sec < geo.max,
        forall|x: int|
            db::is_sector(geo, x) ==> (#[trigger] d[x]).store == (if c <= x <= e {
                SectorStoreStatus::Empty
            } else {
                SectorStoreStatus::Full
            }),
    ensures
        ({
            let (st1, r) = model::open_db(m, geo, max_len, fixed);
            let before = if c == 0 {
                geo.max - geo.sec
            } else {
                c - geo.sec
            };
            &&& r is Ok
            &&& st1.ready
            &&& st1.m == m
            &&& st1.cur.at == c
            &&& st1.cur.status == SectorStoreStatus::Empty
            &&& st1.oldest == (if e + geo.sec < geo.max {
                e + geo.sec
            } else {
                0
            })
            &&& d[before].recs.len() > 0
            &&& st1.last_time == d[before].recs.last().time
            &&& forall|blob: Seq<u8>, time: int|
                time <= d[before].recs.last().time ==> (#[trigger] model::append(
                    st1,
                    blob,
                    time,
                )) == (st1, Err::<(), FdbError>(FdbError::WriteErr))
        }),
{
    ring::lemma_first(geo, 0);
    model::lemma_neighbours(geo, c, 0);
    db::lemma_geo(geo);
    let none = TsSec { at: DATA_UNUSED as int, ..model::blank_sec() };
    let v0 = Survey { cur: none, empty: 0, empty_at: 0, failed: false };
    assert(surveyed_gap(geo, d, c, e, 0, v0));
    lemma_survey_gap(m, geo, max_len, d, c, e, 0, v0);
    let before = if c == 0 {
        geo.max - geo.sec
    } else {
        c - geo.sec
    };
    assert(d[before].store == SectorStoreStatus::Full);
    assert(image::page_at(m.bytes, geo, before, d[before]));
    image::lemma_open_page(m.bytes, geo, before, d[before]);
    image::lemma_head(m, geo, before, d[before]);
    assert(d[c].store == SectorStoreStatus::Empty);
    assert(image::page_at(m.bytes, geo, c, d[c]));
    image::lemma_open_page(m.bytes, geo, c, d[c]);
    image::lemma_sixteen(geo);
    image::lemma_full(m, geo, max_len, c, d[c]);
    image::lemma_head(m, geo, c, d[c]);
}

/// Closing a sector writes its end to the first of two places that is free: where nothing was
/// written to the first one yet, or where the power went away while the first was written and
/// nothing was written to the second. Reading the sector then shows it as full, with the time
/// that was given and the last index record.
pub proof fn a_closed_sector_says_where_it_ends(
    m: Medium,
    geo: Geo,
    s: TsSec,
    last_time: int,
)
    requires
        m.budget is None,
        0 <= s.at,
        s.at + 32 <= m.bytes.len() <= 0xFFFF_FFFF,
        model::sector_head(m, geo, s.at, model::blank_sec()).check_ok,
        s.end0 == model::sector_head(m, geo, s.at, model::blank_sec()).end0,
        s.end1 == model::sector_head(m, geo, s.at, model::blank_sec()).end1,
        s.end0 == TslStatus::Unused || (s.end0 == TslStatus::PreWrite && s.end1
            == TslStatus::Unused),
        16 <= s.empty_idx <= 0xFFFF_FFFF,
        -0x8000_0000 <= last_time <= 0x7FFF_FFFF,
    ensures
        ({
            let (m1, r) = model::close_sector(m, s, last_time);
            let h = model::sector_head(m1, geo, s.at, model::blank_sec());
            &&& r is Ok
            &&& h.check_ok
            &&& h.status == SectorStoreStatus::Full
            &&& h.end == last_time
            &&& h.end_idx == s.empty_idx - 16
            &&& h.start == model::sector_head(m, geo, s.at, model::blank_sec()).start
            &&& forall|q: int|
                0 <= q < m.bytes.len() && !(s.at <= q < s.at + 27) ==> #[trigger] m1.bytes[q]
                    == m.bytes[q]
        }),
{
    let at = s.at;
    let (so, to, io) = if s.end0 == TslStatus::Unused {
        (17int, 9int, 13int)
    } else {
        (26int, 18int, 22int)
    };
    let w = codec::as_word(last_time);
    let idx = s.empty_idx - 16;
    let m1 = flash::put_status(m, at + so, 1, false);
    let m2 = m1.program(at + to, codec::le32_bytes(w), false);
    let m3 = m2.program(at + io, codec::le32_bytes(idx), false);
    let m4 = flash::put_status(m3, at + so, 2, true);
    let m5 = flash::put_status(m4, at, 3, true);
    assert(model::close_sector(m, s, last_time).0 == m5);
    let h0 = m.fetch(at, flash::zeros(32));
    let h5 = m5.fetch(at, flash::zeros(32));
    assert(h0 =~= m.bytes.subrange(at, at + 32));
    assert(h5 =~= m5.bytes.subrange(at, at + 32));
    assert(m5.bytes.subrange(at + to, at + to + 4) =~= codec::le32_bytes(w));
    assert(m5.bytes.subrange(at + io, at + io + 4) =~= codec::le32_bytes(idx));
    codec::le32_round_trip(w, m5.bytes, at + to);
    codec::le32_round_trip(idx, m5.bytes, at + io);
    assert(codec::le32(h5, to) == codec::le32(m5.bytes, at + to));
    assert(codec::le32(h5, io) == codec::le32(m5.bytes, at + io));
    assert(codec::le32(h5, 1) == codec::le32(h0, 1));
    assert(codec::le32(h5, 5) == codec::le32(h0, 5));
    assert(h5.subrange(0, 1) =~= seq![status::status_byte(3)]);
    assert(h5.subrange(so, so + 1) =~= seq![status::status_byte(2)]);
    status::status_round_trip_one_byte(3, 4);
    status::status_round_trip_one_byte(2, 6);
    if so == 26 {
        assert(h5.subrange(17, 18) =~= h0.subrange(17, 18));
    }
}

// ----------------------------------------------------------------------- bad headers

/// Whether some sector header is bad.
pub open spec fn some_bad(m: Medium, geo: Geo) -> bool {
    exists|x: int| #[trigger] bad_at(m, geo, x)
}

/// Whether a sector with a bad header lies at `x`.
pub open spec fn bad_at(m: Medium, geo: Geo, x: int) -> bool {
    db::is_sector(geo, x) && !model::sector_head(m, geo, x, model::blank_sec()).check_ok
}

/// Reading the logs of a sector does not change whether its header is good.
proof fn lemma_tally_ok(m: Medium, max_len: int, s: TsSec)
    ensures
        model::tally(m, max_len, s).0.check_ok == s.check_ok,
    decreases s.remain,
{
    let l = model::log_at(m, max_len, s.empty_idx);
    if l.status != TslStatus::Unused {
        let cost = 16 + l.len;
        if s.remain > cost && cost > 0 {
            let s1 = TsSec {
                end: if l.status == TslStatus::PreWrite {
                    s.end
                } else {
                    l.time
                },
                end_idx: s.empty_idx,
                empty_idx: s.empty_idx + 16,
                empty_data: model::above_zero(s.empty_data - l.len),
                remain: s.remain - cost,
                ..s
            };
            lemma_tally_ok(m, max_len, s1);
        }
    }
}

proof fn lemma_survey_fails(m: Medium, geo: Geo, max_len: int, t: int, v: Survey, x: int)
    requires
        ring::on_walk(geo, 0, t),
        bad_at(m, geo, x),
        x >= t,
    ensures
        model::survey_from(m, geo, max_len, t, t, v).failed,
    decreases geo.max - t,
{
    ring::lemma_walk(geo, 0, t);
    assert(ring::at(geo, 0, t) == t);
    let h = model::sector_head(m, geo, t, model::blank_sec());
    lemma_tally_ok(m, max_len, h);
    let s = model::sector_full(m, geo, max_len, t, model::blank_sec()).0;
    assert(s.check_ok == h.check_ok);
    let none = v.cur.at == DATA_UNUSED;
    if s.check_ok && !(s.status == SectorStoreStatus::Using && !none) {
        ring::lemma_ahead(geo, 0, t, x);
        ring::lemma_dist(geo, 0, x);
        let v1 = if s.status == SectorStoreStatus::Using {
            Survey { cur: s, ..v }
        } else if s.status == SectorStoreStatus::Empty {
            Survey {
                cur: if v.empty == 0 && none {
                    s
                } else {
                    v.cur
                },
                empty: v.empty + 1,
                empty_at: t,
                ..v
            }
        } else {
            v
        };
        lemma_survey_fails(m, geo, max_len, t + geo.sec, v1, x);
    }
}

/// Opening a medium with a bad sector header: it is formatted, and holds no log. A database
/// that may not be formatted is not opened, and its medium is left alone.
pub proof fn open_with_a_bad_header(m: Medium, geo: Geo, max_len: int, fixed: bool)
    requires
        model::geo_ok(geo),
        geo.max <= m.bytes.len() <= 0xFFFF_FFFF,
        m.budget is None,
        db::whole_sectors(geo, m.erases),
        m.flushed.len() == m.bytes.len(),
        0 <= max_len,
        some_bad(m, geo),
    ensures
        ({
            let (st1, r) = model::open_db(m, geo, max_len, fixed);
            &&& fixed ==> r == Err::<(), FdbError>(FdbError::ReadErr) && st1.m == m
            &&& !fixed ==> r is Ok && laws::good(st1, blank_image()) && model::collect(st1)
                == Seq::<Log>::empty() && st1.m.clears == m.clears
        }),
{
    ring::lemma_first(geo, 0);
    let x = choose|x: int| #[trigger] bad_at(m, geo, x);
    let none = TsSec { at: DATA_UNUSED as int, ..model::blank_sec() };
    let v0 = Survey { cur: none, empty: 0, empty_at: 0, failed: false };
    lemma_survey_fails(m, geo, max_len, 0, v0, x);
    let v = model::survey(m, geo, max_len);
    let st0 = TsState {
        m,
        geo,
        oldest: DATA_UNUSED as int,
        ready: false,
        fixed,
        max_len,
        rollover: true,
        last_time: 0,
        cur: v.cur,
    };
    if !fixed {
        clean_leaves_no_log(st0);
        let st1 = model::clean(st0);
        assert(image::page_at(st1.m.bytes, geo, 0, blank_image()[0]));
        image::lemma_sixteen(geo);
        image::lemma_full(st1.m, geo, max_len, 0, change::fresh());
        image::lemma_head(st1.m, geo, 0, change::fresh());
        let st2 = model::open_db(m, geo, max_len, fixed).0;
        assert(st2 == TsState { ready: true, ..st1 });
        laws::lemma_collect_from(st1, blank_image(), 0);
        laws::lemma_collect_from(st2, blank_image(), 0);
    }
}

// ---------------------------------------------------------------------------- marking

/// The sector `p` with another status of its `i`th log.
pub open spec fn with_status(p: Page, i: int, t: TslStatus) -> Page {
    Page { recs: p.recs.update(i, Entry { status: t, ..p.recs[i] }), ..p }
}

/// Where the `k`th log on a walk lies, and that marking it changes it alone.
proof fn lemma_locate(geo: Geo, d: Map<int, Page>, o: int, t: int, k: int, status: TslStatus) -> (r: (
    int,
    int,
))
    requires
        ring::on_walk(geo, o, t),
        0 <= k < laws::logs_of(geo, d, o, t).len(),
    ensures
        ({
            let (x, i) = r;
            let logs = laws::logs_of(geo, d, o, t);
            let d1 = d.insert(x, with_status(d[x], i, status));
            &&& db::is_sector(geo, x)
            &&& ring::dist(geo, o, x) >= t
            &&& 0 <= i < d[x].recs.len()
            &&& logs[k] == image::log_of(geo, x, d[x].recs, i)
            &&& laws::logs_of(geo, d1, o, t) == logs.update(k, Log { status, ..logs[k] })
        }),
    decreases geo.max - t,
{
    let at = ring::at(geo, o, t);
    ring::lemma_walk(geo, o, t);
    let here = laws::page_logs(geo, at, d[at]);
    let n = here.len() as int;
    let logs = laws::logs_of(geo, d, o, t);
    if k < n {
        let d1 = d.insert(at, with_status(d[at], k, status));
        let here1 = laws::page_logs(geo, at, d1[at]);
        lemma_page_marked(geo, at, d[at], k, status);
        assert(here1 == here.update(k, Log { status, ..here[k] }));
        if t + geo.sec < geo.max {
            lemma_elsewhere(geo, d, d1, o, t + geo.sec, at);
            let rest = laws::logs_of(geo, d, o, t + geo.sec);
            assert(here.update(k, Log { status, ..here[k] }) + rest =~= (here + rest).update(
                k,
                Log { status, ..here[k] },
            ));
        }
        (at, k)
    } else {
        let rest = laws::logs_of(geo, d, o, t + geo.sec);
        let (x, i) = lemma_locate(geo, d, o, t + geo.sec, k - n, status);
        let d1 = d.insert(x, with_status(d[x], i, status));
        assert(d1[at] == d[at]);
        let l = Log { status, ..rest[k - n] };
        assert(here + rest.update(k - n, l) =~= (here + rest).update(k, l));
        (x, i)
    }
}

/// The logs of a sector with another status of one.
proof fn lemma_page_marked(geo: Geo, at: int, p: Page, i: int, status: TslStatus)
    requires
        0 <= i < p.recs.len(),
    ensures
        ({
            let here = laws::page_logs(geo, at, p);
            laws::page_logs(geo, at, with_status(p, i, status)) == here.update(
                i,
                Log { status, ..here[i] },
            )
        }),
{
    let p1 = with_status(p, i, status);
    let here = laws::page_logs(geo, at, p);
    let here1 = laws::page_logs(geo, at, p1);
    assert forall|j: int| 0 <= j < here.len() implies here1[j] == here.update(
        i,
        Log { status, ..here[i] },
    )[j] by {
        image::lemma_total_same(p1.recs, p.recs, j + 1);
    }
    assert(here1 =~= here.update(i, Log { status, ..here[i] }));
}

/// Behind a sector that changes nothing changes.
proof fn lemma_elsewhere(geo: Geo, d: Map<int, Page>, d1: Map<int, Page>, o: int, t: int, at: int)
    requires
        ring::on_walk(geo, o, t),
        ring::dist(geo, o, at) < t,
        forall|x: int| x != at ==> (#[trigger] d1[x]) == d[x],
    ensures
        laws::logs_of(geo, d1, o, t) == laws::logs_of(geo, d, o, t),
    decreases geo.max - t,
{
    let x = ring::at(geo, o, t);
    ring::lemma_walk(geo, o, t);
    assert(x != at);
    if t + geo.sec < geo.max {
        lemma_elsewhere(geo, d, d1, o, t + geo.sec, at);
    }
}

/// Programming the status of a log.
proof fn lemma_mark(
    m: Medium,
    geo: Geo,
    d: Map<int, Page>,
    x: int,
    i: int,
    t: TslStatus,
)
    requires
        image::holds_image(m, geo, d),
        m.budget is None,
        db::is_sector(geo, x),
        0 <= i < d[x].recs.len(),
        t != TslStatus::Unused,
        t != TslStatus::PreWrite,
    ensures
        ({
            let a = image::idx_at(x, i);
            let m1 = flash::put_status(m, a, def::tsl_index_of(t), true);
            &&& flash::put_status_result(m, a, def::tsl_index_of(t)) == Ok::<(), FdbError>(())
            &&& m1.budget is None
            &&& def::tsl_index_of(d[x].recs[i].status) <= def::tsl_index_of(t) ==> m1.clears
                == m.clears
            &&& image::holds_image(m1, geo, d.insert(x, with_status(d[x], i, t)))
            &&& image::gap(geo, with_status(d[x], i, t)) == image::gap(geo, d[x])
        }),
{
    let p = d[x];
    let p1 = with_status(p, i, t);
    let n = p.recs.len() as int;
    let a = image::idx_at(x, i);
    let b1 = m.bytes;
    assert(image::page_at(b1, geo, x, p));
    image::lemma_entry(b1, geo, x, p, i);
    image::lemma_open_page(b1, geo, x, p);
    image::lemma_total(p.recs, 0, n);
    let m1 = flash::put_status(m, a, def::tsl_index_of(t), true);
    if def::tsl_index_of(p.recs[i].status) <= def::tsl_index_of(t) {
        flash::lemma_clears_status(m, a, def::tsl_index_of(p.recs[i].status), def::tsl_index_of(t));
    }
    assert(status::status_place(def::tsl_index_of(t)) == 0);
    assert(m.accepts(a, 1));
    let b2 = m1.bytes;
    assert(b2[a] == status::status_byte(def::tsl_index_of(t)));
    assert forall|j: int| 0 <= j < b1.len() && j != a implies #[trigger] b2[j] == b1[j] by {}
    assert forall|k: int| 0 <= k <= n implies #[trigger] image::total(p1.recs, k) == image::total(
        p.recs,
        k,
    ) by {
        image::lemma_total_same(p1.recs, p.recs, k);
    }
    assert(image::total(p1.recs, n) == image::total(p.recs, n));
    assert forall|k: int| 0 <= k < n implies #[trigger] image::entry_at(
        b2,
        geo,
        x,
        p1.recs,
        k,
    ) by {
        image::lemma_entry(b1, geo, x, p, k);
        assert(image::total(p1.recs, k + 1) == image::total(p.recs, k + 1));
        if k == i {
            lemma_entry_marked(b1, b2, geo, x, p.recs, p1.recs, i, t);
        } else {
            change::lemma_entry_frame(b1, b2, geo, x, p.recs, p1.recs, k);
        }
    }
    assert(codec::le32(b2, x + 1) == codec::le32(b1, x + 1));
    assert(codec::le32(b2, x + 5) == codec::le32(b1, x + 5));
    assert(codec::le32(b2, x + 9) == codec::le32(b1, x + 9));
    assert(codec::le32(b2, x + 13) == codec::le32(b1, x + 13));
    assert forall|k: int, j: int| 0 <= k < j < n implies (#[trigger] p1.recs[k]).time < (
    #[trigger] p1.recs[j]).time by {
        assert(p.recs[k].time < p.recs[j].time);
    }
    assert(image::page_at(b2, geo, x, p1)) by {
        reveal(image::page_at);
    }
    change::lemma_image_frame(b1, b2, geo, d, x, p1);
}

/// A log with another status.
proof fn lemma_entry_marked(
    b1: Seq<u8>,
    b2: Seq<u8>,
    geo: Geo,
    at: int,
    recs: Seq<Entry>,
    recs1: Seq<Entry>,
    i: int,
    t: TslStatus,
)
    requires
        image::entry_at(b1, geo, at, recs, i),
        0 <= at,
        0 <= i,
        recs1[i] == (Entry { status: t, ..recs[i] }),
        image::data_at(geo, at, recs1, i) == image::data_at(geo, at, recs, i),
        image::idx_at(at, i) + 16 <= image::data_at(geo, at, recs, i),
        image::data_at(geo, at, recs, i) + recs[i].data.len() <= b1.len(),
        b2.len() == b1.len(),
        b2[image::idx_at(at, i)] == status::status_byte(def::tsl_index_of(t)),
        forall|j: int|
            0 <= j < b1.len() && j != image::idx_at(at, i) ==> #[trigger] b2[j] == b1[j],
        t != TslStatus::Unused,
        t != TslStatus::PreWrite,
    ensures
        image::entry_at(b2, geo, at, recs1, i),
{
    let a = image::idx_at(at, i);
    let d = image::data_at(geo, at, recs, i);
    let len = recs[i].data.len() as int;
    assert(codec::le32(b2, a + 4) == codec::le32(b1, a + 4));
    assert(codec::le32(b2, a + 8) == codec::le32(b1, a + 8));
    assert(codec::le32(b2, a + 12) == codec::le32(b1, a + 12));
    assert(b2.subrange(d, d + len) =~= b1.subrange(d, d + len));
}

/// Setting the status of a log to one of a written log changes that status, and nothing
/// else of what collecting gives. Sectors that are packed stay so. Programming only clears
/// bits where the new status does not come before the old one.
pub proof fn set_status_changes_one_log(st: TsState, d: Map<int, Page>, k: int, status: TslStatus) -> (d1: Map<
    int,
    Page,
>)
    requires
        laws::good(st, d),
        0 <= k < model::collect(st).len(),
        status != TslStatus::Unused,
        status != TslStatus::PreWrite,
    ensures
        ({
            let l = model::collect(st)[k];
            let i = def::tsl_index_of(status);
            let st1 = TsState { m: flash::put_status(st.m, l.at, i, true), ..st };
            &&& flash::put_status_result(st.m, l.at, i) == Ok::<(), FdbError>(())
            &&& laws::good(st1, d1)
            &&& model::collect(st1) == model::collect(st).update(k, Log { status, ..l })
            &&& def::tsl_index_of(l.status) <= i ==> st1.m.clears == st.m.clears
            &&& laws::packed(st.geo, st.max_len, d) ==> laws::packed(st.geo, st.max_len, d1)
        }),
{
    let geo = st.geo;
    let o = st.oldest;
    ring::lemma_first(geo, o);
    laws::lemma_collect_from(st, d, 0);
    let (x, i) = lemma_locate(geo, d, o, 0, k, status);
    let d1 = d.insert(x, with_status(d[x], i, status));
    lemma_mark(st.m, geo, d, x, i, status);
    let l = model::collect(st)[k];
    let st1 = TsState { m: flash::put_status(st.m, l.at, def::tsl_index_of(status), true), ..st };
    assert forall|y: int| (#[trigger] d1[y]).store == d[y].store && d1[y].recs.len()
        == d[y].recs.len() by {}
    assert forall|y: int, j: int| 0 <= j < d1[y].recs.len() implies (
    #[trigger] d1[y].recs[j]).time == d[y].recs[j].time by {}
    assert(laws::arranged(geo, d1, o, st.cur.at)) by {
        assert forall|y: int|
            db::is_sector(geo, y) && ring::dist(geo, o, y) < ring::dist(
                geo,
                o,
                st.cur.at,
            ) implies (#[trigger] d1[y]).store == SectorStoreStatus::Full by {
            assert(d[y].store == SectorStoreStatus::Full);
        }
        assert forall|y: int|
            db::is_sector(geo, y) && ring::dist(geo, o, y) > ring::dist(
                geo,
                o,
                st.cur.at,
            ) implies (#[trigger] d1[y]).store == SectorStoreStatus::Empty by {
            assert(d[y].store == SectorStoreStatus::Empty);
        }
    }
    assert(laws::ordered(geo, d1, o)) by {
        assert forall|y: int, z: int|
            #![trigger d1[y], d1[z]]
            db::is_sector(geo, y) && db::is_sector(geo, z) && ring::dist(geo, o, y) < ring::dist(
                geo,
                o,
                z,
            ) && d1[y].recs.len() > 0 && d1[z].recs.len() > 0 implies d1[y].recs.last().time
            < d1[z].recs[0].time by {
            assert(d[y].recs.last().time < d[z].recs[0].time);
        }
    }
    assert(laws::current(geo, st1.cur, d1[st.cur.at])) by {
        let p = d[st.cur.at];
        let p1 = d1[st.cur.at];
        let n = p.recs.len() as int;
        image::lemma_total_same(p1.recs, p.recs, n);
    }
    assert(laws::good(st1, d1));
    laws::lemma_collect_from(st1, d1, 0);
    if laws::packed(geo, st.max_len, d) {
        assert forall|y: int| db::is_sector(geo, y) implies laws::packed_page(
            geo,
            st.max_len,
            #[trigger] d1[y],
        ) by {
            assert(laws::packed_page(geo, st.max_len, d[y]));
            image::lemma_total_same(d1[y].recs, d[y].recs, d[y].recs.len() as int);
            assert forall|j: int| 0 <= j < d1[y].recs.len() implies (
            #[trigger] d1[y].recs[j]).data.len() <= st.max_len by {
                assert(d[y].recs[j].data.len() <= st.max_len);
            }
        }
    }
    d1
}

} // verus!
