//! What the time-series database promises of a history of appends: it holds the logs that
//! were appended last, and it loses none before it holds as many as it was made for.
use vstd::prelude::*;

use crate::db;
use crate::db::Geo;
use crate::def::SectorStoreStatus;
use crate::ring;
use crate::ts_image as image;
use crate::ts_image::{Entry, Page};
use crate::ts_laws as laws;
use crate::ts_model as model;
use crate::ts_model::TsState;

verus! {

// ------------------------------------------------------------------- how many logs

/// The data of logs of up to `max_len` bytes.
proof fn lemma_total_max(recs: Seq<Entry>, i: int, max_len: int)
    requires
        0 <= i <= recs.len(),
        forall|k: int| 0 <= k < recs.len() ==> (#[trigger] recs[k]).data.len() <= max_len,
    ensures
        image::total(recs, i) <= i * max_len,
    decreases i,
{
    if i > 0 {
        lemma_total_max(recs, i - 1, max_len);
        assert(recs[i - 1].data.len() <= max_len);
        assert(i * max_len == (i - 1) * max_len + max_len) by (nonlinear_arith);
    } else {
        assert(i * max_len == 0) by (nonlinear_arith)
            requires
                i == 0,
        ;
    }
}

/// The data of logs of `max_len` bytes.
proof fn lemma_total_exact(recs: Seq<Entry>, i: int, max_len: int)
    requires
        0 <= i <= recs.len(),
        forall|k: int| 0 <= k < recs.len() ==> (#[trigger] recs[k]).data.len() == max_len,
    ensures
        image::total(recs, i) == i * max_len,
    decreases i,
{
    if i > 0 {
        lemma_total_exact(recs, i - 1, max_len);
        assert(recs[i - 1].data.len() == max_len);
        assert(i * max_len == (i - 1) * max_len + max_len) by (nonlinear_arith);
    } else {
        assert(i * max_len == 0) by (nonlinear_arith)
            requires
                i == 0,
        ;
    }
}

/// How many logs of the greatest length a sector can hold.
pub open spec fn per_sector(geo: Geo, max_len: int) -> int {
    (geo.sec - 32) / (16 + max_len)
}

/// A sector without room for a log of the greatest length holds at least as many as it can
/// hold of that length.
proof fn lemma_page_min(geo: Geo, max_len: int, p: Page)
    requires
        0 <= max_len,
        image::gap(geo, p) < 16 + max_len,
        forall|i: int| 0 <= i < p.recs.len() ==> (#[trigger] p.recs[i]).data.len() <= max_len,
    ensures
        p.recs.len() >= per_sector(geo, max_len),
{
    let n = p.recs.len() as int;
    let b = 16 + max_len;
    let avail = geo.sec - 32;
    lemma_total_max(p.recs, n, max_len);
    assert(n >= avail / b) by (nonlinear_arith)
        requires
            avail < 16 * n + n * max_len + b,
            b == 16 + max_len,
            b > 0,
    ;
}

/// A sector of logs of the greatest length holds no more of them than it can hold.
proof fn lemma_page_max(geo: Geo, max_len: int, p: Page)
    requires
        0 <= max_len,
        image::gap(geo, p) >= 0,
        forall|i: int| 0 <= i < p.recs.len() ==> (#[trigger] p.recs[i]).data.len() == max_len,
    ensures
        p.recs.len() <= per_sector(geo, max_len),
{
    let n = p.recs.len() as int;
    let b = 16 + max_len;
    let avail = geo.sec - 32;
    lemma_total_exact(p.recs, n, max_len);
    assert(n <= avail / b) by (nonlinear_arith)
        requires
            avail >= 16 * n + n * max_len,
            b == 16 + max_len,
            b > 0,
    ;
}

/// The logs of the last `k` sectors of a walk, each of which holds at least `per`.
proof fn lemma_count_min(geo: Geo, d: Map<int, Page>, o: int, t: int, k: int, per: int)
    requires
        ring::on_walk(geo, o, t),
        k >= 1,
        t + k * geo.sec == geo.max,
        forall|x: int| db::is_sector(geo, x) ==> (#[trigger] d[x]).recs.len() >= per,
    ensures
        laws::entries(geo, d, o, t).len() >= k * per,
    decreases k,
{
    let at = ring::at(geo, o, t);
    ring::lemma_walk(geo, o, t);
    assert(d[at].recs.len() >= per);
    assert(k * per == (k - 1) * per + per) by (nonlinear_arith);
    assert(k * geo.sec == (k - 1) * geo.sec + geo.sec) by (nonlinear_arith);
    if k > 1 {
        assert((k - 1) * geo.sec > 0) by (nonlinear_arith)
            requires
                k > 1,
                geo.sec > 0,
        ;
        lemma_count_min(geo, d, o, t + geo.sec, k - 1, per);
    } else {
        assert((k - 1) * per == 0) by (nonlinear_arith)
            requires
                k == 1,
        ;
    }
}

/// The logs of the last `k` sectors of a walk, each of which holds at most `per`.
proof fn lemma_count_max(geo: Geo, d: Map<int, Page>, o: int, t: int, k: int, per: int)
    requires
        ring::on_walk(geo, o, t),
        k >= 1,
        t + k * geo.sec == geo.max,
        forall|x: int| db::is_sector(geo, x) ==> (#[trigger] d[x]).recs.len() <= per,
    ensures
        laws::entries(geo, d, o, t).len() <= k * per,
    decreases k,
{
    let at = ring::at(geo, o, t);
    ring::lemma_walk(geo, o, t);
    assert(d[at].recs.len() <= per);
    assert(k * per == (k - 1) * per + per) by (nonlinear_arith);
    assert(k * geo.sec == (k - 1) * geo.sec + geo.sec) by (nonlinear_arith);
    if k > 1 {
        assert((k - 1) * geo.sec > 0) by (nonlinear_arith)
            requires
                k > 1,
                geo.sec > 0,
        ;
        lemma_count_max(geo, d, o, t + geo.sec, k - 1, per);
    } else {
        assert((k - 1) * per == 0 && (k - 1) * geo.sec == 0) by (nonlinear_arith)
            requires
                k == 1,
        ;
    }
}

/// The number of sectors.
proof fn lemma_sectors(geo: Geo)
    requires
        model::geo_ok(geo),
    ensures
        geo.max / geo.sec >= 1,
        (geo.max / geo.sec) * geo.sec == geo.max,
{
    db::lemma_geo(geo);
    vstd::arithmetic::div_mod::lemma_fundamental_div_mod(geo.max, geo.sec);
    let k = geo.max / geo.sec;
    assert(k * geo.sec == geo.max) by (nonlinear_arith)
        requires
            geo.max == geo.sec * k,
    ;
    assert(k >= 1) by (nonlinear_arith)
        requires
            k * geo.sec == geo.max,
            geo.max > 0,
            geo.sec > 0,
    ;
}

/// A database of logs of the greatest length holds no more of them than
/// [`crate::Tsdb::max_blob_count`] says.
pub proof fn no_more_logs_than_the_greatest_count(st: TsState, d: Map<int, Page>)
    requires
        laws::good(st, d),
        forall|x: int, i: int|
            db::is_sector(st.geo, x) && 0 <= i < d[x].recs.len() ==> (
            #[trigger] d[x].recs[i]).data.len() == st.max_len,
    ensures
        laws::contents(st, d).len() <= model::max_blobs(st.geo, st.max_len),
{
    let geo = st.geo;
    lemma_sectors(geo);
    ring::lemma_first(geo, st.oldest);
    let per = per_sector(geo, st.max_len);
    assert forall|x: int| db::is_sector(geo, x) implies (#[trigger] d[x]).recs.len() <= per by {
        assert(image::page_at(st.m.bytes, geo, x, d[x]));
        image::lemma_open_page(st.m.bytes, geo, x, d[x]);
        assert forall|i: int| 0 <= i < d[x].recs.len() implies (
        #[trigger] d[x].recs[i]).data.len() == st.max_len by {}
        lemma_page_max(geo, st.max_len, d[x]);
    }
    lemma_count_max(geo, d, st.oldest, 0, geo.max / geo.sec, per);
}

/// Appending drops no log, and reports no full database, before the database holds as many
/// logs as [`crate::Tsdb::max_blob_count`] says.
pub proof fn no_log_goes_before_the_greatest_count(st: TsState, d: Map<int, Page>, size: int)
    requires
        laws::good(st, d),
        laws::packed(st.geo, st.max_len, d),
        0 <= size <= st.max_len,
        laws::is_full(st, d, size) || laws::takes_oldest(st, d, size),
    ensures
        laws::contents(st, d).len() >= model::max_blobs(st.geo, st.max_len),
{
    let geo = st.geo;
    let o = st.oldest;
    let c = st.cur.at;
    lemma_sectors(geo);
    ring::lemma_first(geo, o);
    laws::lemma_behind(geo, o, c);
    laws::lemma_behind(geo, c, o);
    db::lemma_geo(geo);
    let per = per_sector(geo, st.max_len);
    assert(ring::dist(geo, o, c) + geo.sec == geo.max);
    assert forall|x: int| db::is_sector(geo, x) implies (#[trigger] d[x]).recs.len() >= per by {
        laws::lemma_behind(geo, o, x);
        ring::lemma_dist(geo, o, x);
        ring::lemma_dist(geo, o, c);
        assert(laws::packed_page(geo, st.max_len, d[x]));
        if x != c {
            assert(ring::dist(geo, o, x) < ring::dist(geo, o, c));
            assert(d[x].store == SectorStoreStatus::Full);
        }
        lemma_page_min(geo, st.max_len, d[x]);
    }
    lemma_count_min(geo, d, o, 0, geo.max / geo.sec, per);
}

// ----------------------------------------------------------------- a history of appends

/// The database after appending logs one by one, each given by its data and its time.
pub open spec fn append_all(st: TsState, logs: Seq<(Seq<u8>, int)>) -> TsState
    decreases logs.len(),
{
    if logs.len() == 0 {
        st
    } else {
        model::append(append_all(st, logs.drop_last()), logs.last().0, logs.last().1).0
    }
}

/// Those of the logs whose appending succeeds.
pub open spec fn taken(st: TsState, logs: Seq<(Seq<u8>, int)>) -> Seq<Entry>
    decreases logs.len(),
{
    if logs.len() == 0 {
        Seq::empty()
    } else {
        let before = taken(st, logs.drop_last());
        let (blob, time) = logs.last();
        if model::append(append_all(st, logs.drop_last()), blob, time).1 is Ok {
            before.push(laws::new_entry(blob, time))
        } else {
            before
        }
    }
}

/// Whether a database holds the last of the logs `all`, all but the first `n`, and lost none
/// of them before there were too many.
pub open spec fn keeps(st: TsState, d: Map<int, Page>, all: Seq<Entry>, n: int) -> bool {
    &&& laws::good(st, d)
    &&& laws::packed(st.geo, st.max_len, d)
    &&& 0 <= n <= all.len()
    &&& laws::contents(st, d) == all.skip(n)
    &&& n > 0 ==> all.len() > model::max_blobs(st.geo, st.max_len)
}

/// One more log.
proof fn lemma_keeps_new(
    st: TsState,
    d: Map<int, Page>,
    st1: TsState,
    d1: Map<int, Page>,
    all: Seq<Entry>,
    n: int,
    size: int,
    e: Entry,
) -> (n1: int)
    requires
        keeps(st, d, all, n),
        0 <= size <= st.max_len,
        laws::good(st1, d1),
        st1.geo == st.geo,
        st1.max_len == st.max_len,
        laws::packed(st.geo, st.max_len, d1),
        laws::contents(st1, d1) == (if laws::takes_oldest(st, d, size) {
            laws::contents(st, d).skip(d[st.oldest].recs.len() as int).push(e)
        } else {
            laws::contents(st, d).push(e)
        }),
    ensures
        keeps(st1, d1, all.push(e), n1),
        !laws::takes_oldest(st, d, size) ==> n1 == n,
{
    if laws::takes_oldest(st, d, size) {
        no_log_goes_before_the_greatest_count(st, d, size);
        let gone = d[st.oldest].recs.len() as int;
        ring::lemma_first(st.geo, st.oldest);
        assert(laws::contents(st, d).len() >= gone);
        assert(all.skip(n).skip(gone).push(e) =~= all.push(e).skip(n + gone));
        n + gone
    } else {
        assert(all.skip(n).push(e) =~= all.push(e).skip(n));
        n
    }
}

/// One more append.
#[verifier::rlimit(40)]
#[verifier::spinoff_prover]
proof fn lemma_keeps(
    st: TsState,
    d: Map<int, Page>,
    all: Seq<Entry>,
    n: int,
    blob: Seq<u8>,
    time: int,
) -> (out: (Map<int, Page>, int))
    requires
        keeps(st, d, all, n),
        time <= 0x7FFF_FFFF,
        blob.len() + 48 <= st.geo.sec || blob.len() > st.max_len,
    ensures
        ({
            let (d1, n1) = out;
            let (st1, r) = model::append(st, blob, time);
            let all1 = if r is Ok {
                all.push(laws::new_entry(blob, time))
            } else {
                all
            };
            &&& keeps(st1, d1, all1, n1)
            &&& st1.geo == st.geo
            &&& st1.max_len == st.max_len
            &&& st1.rollover == st.rollover
            &&& !st.rollover && st.oldest == 0 ==> n1 == n && st1.oldest == 0
            &&& st1.m.clears == st.m.clears
        }),
{
    let size = blob.len() as int;
    if size > st.max_len || time <= st.last_time {
        laws::append_refuses(st, blob, time);
        (d, n)
    } else {
        let e = laws::new_entry(blob, time);
        let d1 = laws::append_adds_the_log(st, d, blob, time);
        if laws::is_full(st, d, size) {
            (d1, n)
        } else {
            let st1 = model::append(st, blob, time).0;
            (d1, lemma_keeps_new(st, d, st1, d1, all, n, size, e))
        }
    }
}

/// Appending any logs, each of which is too long or fits an empty sector, one after the
/// other: the database then holds the last of the logs it held before and of those whose
/// appending succeeded, in their order. It has lost none unless there are more of them than
/// [`crate::Tsdb::max_blob_count`] says, and none at all where it does not roll over and
/// never did. Programming only clears bits.
pub proof fn history_keeps_the_last_logs(
    st: TsState,
    d: Map<int, Page>,
    logs: Seq<(Seq<u8>, int)>,
) -> (out: (Map<int, Page>, int))
    requires
        laws::good(st, d),
        laws::packed(st.geo, st.max_len, d),
        forall|i: int|
            0 <= i < logs.len() ==> (#[trigger] logs[i]).1 <= 0x7FFF_FFFF && (logs[i].0.len() + 48
                <= st.geo.sec || logs[i].0.len() > st.max_len),
    ensures
        ({
            let (d1, n) = out;
            let st1 = append_all(st, logs);
            let all = laws::contents(st, d) + taken(st, logs);
            &&& keeps(st1, d1, all, n)
            &&& st1.geo == st.geo
            &&& st1.max_len == st.max_len
            &&& st1.rollover == st.rollover
            &&& laws::all_shown(st1.m, model::collect(st1), all.skip(n))
            &&& !st.rollover && st.oldest == 0 ==> n == 0 && st1.oldest == 0
            &&& st1.m.clears == st.m.clears
        }),
    decreases logs.len(),
{
    let before = laws::contents(st, d);
    let st1 = append_all(st, logs);
    let all = before + taken(st, logs);
    let (d1, n) = if logs.len() == 0 {
        assert(all =~= before);
        assert(all.skip(0) =~= before);
        (d, 0)
    } else {
        let first = logs.drop_last();
        let (blob, time) = logs.last();
        assert(logs.last() == logs[logs.len() - 1]);
        assert forall|i: int| 0 <= i < first.len() implies (#[trigger] first[i]).1 <= 0x7FFF_FFFF
            && (first[i].0.len() + 48 <= st.geo.sec || first[i].0.len() > st.max_len) by {
            assert(first[i] == logs[i]);
        }
        let (d0, n0) = history_keeps_the_last_logs(st, d, first);
        let st0 = append_all(st, first);
        let all0 = before + taken(st, first);
        let (d1, n) = lemma_keeps(st0, d0, all0, n0, blob, time);
        if model::append(st0, blob, time).1 is Ok {
            assert(all =~= all0.push(laws::new_entry(blob, time)));
        }
        (d1, n)
    };
    laws::collect_gives_the_contents(st1, d1);
    (d1, n)
}

} // verus!
