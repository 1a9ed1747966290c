//! What querying the time-series database promises: going back gives the logs in reverse,
//! and a query by time gives the logs whose time lies in its range, in their order or, where
//! it starts with the later time, in reverse.
use vstd::prelude::*;

use crate::db;
use crate::db::Geo;
use crate::def::{SectorStoreStatus, TslStatus};
use crate::ring;
use crate::storage::Medium;
use crate::ts_image as image;
use crate::ts_image::{Entry, Page};
use crate::ts_laws as laws;
use crate::ts_model as model;
use crate::ts_model::{Log, TsSec, TsState};

verus! {

// ------------------------------------------------------------------------- going back

/// The logs of the sectors up to the one that a walk from the sector `o` on comes to after
/// `u` bytes.
pub open spec fn logs_upto(geo: Geo, d: Map<int, Page>, o: int, u: int) -> Seq<Log>
    decreases u,
{
    let at = ring::at(geo, o, u);
    let here = laws::page_logs(geo, at, d[at]);
    if geo.sec > 0 && u >= geo.sec {
        logs_upto(geo, d, o, u - geo.sec) + here
    } else {
        here
    }
}

/// A walk can be split at any sector.
proof fn lemma_split(geo: Geo, d: Map<int, Page>, o: int, u: int)
    requires
        ring::on_walk(geo, o, u),
    ensures
        laws::logs_of(geo, d, o, 0) == (if u + geo.sec < geo.max {
            logs_upto(geo, d, o, u) + laws::logs_of(geo, d, o, u + geo.sec)
        } else {
            logs_upto(geo, d, o, u)
        }),
    decreases u,
{
    ring::lemma_walk(geo, o, u);
    if u >= geo.sec {
        lemma_step_back(geo, o, u);
        lemma_split(geo, d, o, u - geo.sec);
        let at = ring::at(geo, o, u);
        let here = laws::page_logs(geo, at, d[at]);
        let low = logs_upto(geo, d, o, u - geo.sec);
        if u + geo.sec < geo.max {
            let high = laws::logs_of(geo, d, o, u + geo.sec);
            assert(low + (here + high) =~= (low + here) + high);
        }
    } else {
        lemma_small(geo, o, u);
        assert(u == 0);
    }
}

/// One step back on a walk.
proof fn lemma_step_back(geo: Geo, o: int, u: int)
    requires
        ring::on_walk(geo, o, u),
        u >= geo.sec,
    ensures
        ring::on_walk(geo, o, u - geo.sec),
        ring::at(geo, o, u - geo.sec) == (if ring::at(geo, o, u) >= geo.sec {
            ring::at(geo, o, u) - geo.sec
        } else {
            geo.max - geo.sec
        }),
{
    vstd::arithmetic::div_mod::lemma_mod_sub_multiples_vanish(u, geo.sec);
    ring::lemma_walk(geo, o, u);
    ring::lemma_walk(geo, o, u - geo.sec);
}

/// Before the end of the first sector a walk is at its start.
proof fn lemma_small(geo: Geo, o: int, u: int)
    requires
        ring::on_walk(geo, o, u),
        u < geo.sec,
    ensures
        u == 0,
{
    vstd::arithmetic::div_mod::lemma_small_mod(u as nat, geo.sec as nat);
}

/// Where no sector holds logs there are none.
proof fn lemma_logs_none(geo: Geo, d: Map<int, Page>, o: int, t: int)
    requires
        ring::on_walk(geo, o, t),
        forall|x: int|
            db::is_sector(geo, x) && ring::dist(geo, o, x) >= t ==> (
            #[trigger] d[x]).recs.len() == 0,
    ensures
        laws::logs_of(geo, d, o, t) == Seq::<Log>::empty(),
    decreases geo.max - t,
{
    let at = ring::at(geo, o, t);
    ring::lemma_walk(geo, o, t);
    assert(d[at].recs.len() == 0);
    assert(laws::page_logs(geo, at, d[at]) =~= Seq::<Log>::empty());
    if t + geo.sec < geo.max {
        lemma_logs_none(geo, d, o, t + geo.sec);
    }
}

/// All logs lie up to the current sector.
proof fn lemma_all_upto(st: TsState, d: Map<int, Page>)
    requires
        laws::good(st, d),
    ensures
        ({
            let u = ring::dist(st.geo, st.oldest, st.cur.at);
            &&& ring::on_walk(st.geo, st.oldest, u)
            &&& ring::at(st.geo, st.oldest, u) == st.cur.at
            &&& laws::logs_of(st.geo, d, st.oldest, 0) == logs_upto(st.geo, d, st.oldest, u)
            &&& forall|x: int|
                db::is_sector(st.geo, x) && ring::dist(st.geo, st.oldest, x) > u ==> (
                #[trigger] d[x]).recs.len() == 0
        }),
{
    let geo = st.geo;
    let o = st.oldest;
    let u = ring::dist(geo, o, st.cur.at);
    ring::lemma_dist(geo, o, st.cur.at);
    ring::lemma_walk(geo, o, u);
    assert forall|x: int| db::is_sector(geo, x) && ring::dist(geo, o, x) > u implies (
    #[trigger] d[x]).recs.len() == 0 by {
        assert(d[x].store == SectorStoreStatus::Empty);
        assert(image::page_at(st.m.bytes, geo, x, d[x]));
        image::lemma_open_page(st.m.bytes, geo, x, d[x]);
    }
    lemma_split(geo, d, o, u);
    if u + geo.sec < geo.max {
        lemma_logs_none(geo, d, o, u + geo.sec);
        assert(logs_upto(geo, d, o, u) + Seq::<Log>::empty() =~= logs_upto(geo, d, o, u));
    }
}

/// The logs of a sector, read downwards.
proof fn lemma_logs_down(m: Medium, geo: Geo, max_len: int, at: int, p: Page, s: TsSec, i: int)
    requires
        image::page_at(m.bytes, geo, at, p),
        s.status != SectorStoreStatus::Empty,
        s.at == at,
        0 <= i < p.recs.len(),
    ensures
        model::logs_down(m, max_len, s, image::idx_at(at, i)) == laws::page_logs(
            geo,
            at,
            p,
        ).subrange(0, i + 1).reverse(),
    decreases i,
{
    let all = laws::page_logs(geo, at, p);
    image::lemma_log(m, geo, max_len, at, p, i);
    image::lemma_entry(m.bytes, geo, at, p, i);
    lemma_reverse_to(all, i);
    if i > 0 {
        lemma_logs_down(m, geo, max_len, at, p, s, i - 1);
    } else {
        assert(seq![all[0]] + all.subrange(0, 0).reverse() =~= seq![all[0]]);
    }
}

/// The first `i + 1` logs in reverse.
proof fn lemma_reverse_to(all: Seq<Log>, i: int)
    requires
        0 <= i < all.len(),
    ensures
        all.subrange(0, i + 1).reverse() == seq![all[i]] + all.subrange(0, i).reverse(),
{
    assert(all.subrange(0, i + 1).reverse() =~= seq![all[i]] + all.subrange(0, i).reverse());
}

/// The sector before the oldest ends the way back.
proof fn lemma_before_oldest(st: TsState, d: Map<int, Page>, t: int)
    requires
        laws::good(st, d),
        t == ring::dist(st.geo, st.oldest, st.cur.at),
    ensures
        ({
            let geo = st.geo;
            let before = model::last_sector(geo, st.oldest, t + geo.sec);
            &&& before is None <==> t + geo.sec == geo.max
            &&& before matches Some(a) ==> db::is_sector(geo, a) && d[a].store
                == SectorStoreStatus::Empty && d[a].recs.len() == 0
        }),
{
    let geo = st.geo;
    lemma_all_upto(st, d);
    ring::lemma_walk(geo, st.oldest, t);
    model::lemma_neighbours(geo, st.oldest, t + geo.sec);
    if t + geo.sec < geo.max {
        assert(st.oldest == 0);
        ring::lemma_walk(geo, 0, t + geo.sec);
        let a = geo.max - geo.sec;
        assert(ring::dist(geo, 0, a) == a);
        assert(d[a].store == SectorStoreStatus::Empty);
    }
}

proof fn lemma_collect_down(st: TsState, d: Map<int, Page>, u: int)
    requires
        laws::good(st, d),
        ring::on_walk(st.geo, st.oldest, u),
        u <= ring::dist(st.geo, st.oldest, st.cur.at),
        d[st.cur.at].recs.len() > 0,
    ensures
        model::collect_down(
            st,
            ring::at(st.geo, st.oldest, u),
            ring::dist(st.geo, st.oldest, st.cur.at) - u,
        ) == logs_upto(st.geo, d, st.oldest, u).reverse(),
    decreases u,
{
    let geo = st.geo;
    let o = st.oldest;
    let c = ring::dist(geo, o, st.cur.at);
    let at = ring::at(geo, o, u);
    let t = c - u;
    ring::lemma_walk(geo, o, u);
    ring::lemma_dist(geo, o, st.cur.at);
    laws::lemma_here(st, d, at);
    assert(image::page_at(st.m.bytes, geo, at, d[at]));
    image::lemma_open_page(st.m.bytes, geo, at, d[at]);
    assert(d[at].recs.len() > 0) by {
        if u < c {
            assert(d[at].store == SectorStoreStatus::Full);
        }
    }
    let s = model::sector_here(st, at);
    let n = d[at].recs.len() as int;
    let here = laws::page_logs(geo, at, d[at]);
    lemma_logs_down(st.m, geo, st.max_len, at, d[at], s, n - 1);
    assert(here.subrange(0, n) =~= here);
    ring::lemma_walk(geo, o, c);
    if u >= geo.sec {
        lemma_step_back(geo, o, u);
        lemma_collect_down(st, d, u - geo.sec);
        let low = logs_upto(geo, d, o, u - geo.sec);
        assert((low + here).reverse() =~= here.reverse() + low.reverse());
    } else {
        lemma_small(geo, o, u);
        lemma_before_oldest(st, d, c);
        match model::last_sector(geo, o, c + geo.sec) {
            Some(a) => {
                laws::lemma_here(st, d, a);
                assert(model::collect_down(st, a, t + geo.sec) == Seq::<Log>::empty());
                assert(here.reverse() + Seq::<Log>::empty() =~= here.reverse());
            },
            None => {},
        }
    }
}

/// Going back gives the logs in reverse.
pub proof fn reverse_collects_in_reverse(st: TsState, d: Map<int, Page>)
    requires
        laws::good(st, d),
    ensures
        model::collect_reverse(st) == model::collect(st).reverse(),
{
    let geo = st.geo;
    ring::lemma_first(geo, st.oldest);
    laws::lemma_collect_from(st, d, 0);
    lemma_all_upto(st, d);
    let c = st.cur.at;
    let u = ring::dist(geo, st.oldest, c);
    if d[c].recs.len() > 0 {
        lemma_collect_down(st, d, u);
    } else {
        assert(image::page_at(st.m.bytes, geo, c, d[c]));
        image::lemma_open_page(st.m.bytes, geo, c, d[c]);
        laws::lemma_here(st, d, c);
        assert(laws::page_logs(geo, c, d[c]) =~= Seq::<Log>::empty());
        assert(logs_upto(geo, d, st.oldest, u) =~= Seq::<Log>::empty());
        assert(model::collect(st).reverse() =~= Seq::<Log>::empty());
    }
}

// ------------------------------------------------------------------- picking by time

/// Whether the time of a log lies from `lo` to `hi`.
pub open spec fn between(lo: int, hi: int) -> spec_fn(Log) -> bool {
    |l: Log| lo <= l.time <= hi
}

/// Picking from one log.
proof fn lemma_pick_one(l: Log, p: spec_fn(Log) -> bool)
    ensures
        seq![l].filter(p) == (if p(l) {
            seq![l]
        } else {
            Seq::empty()
        }),
{
    reveal(Seq::filter);
    let s = seq![l];
    assert(s.drop_last() =~= Seq::<Log>::empty());
    assert(s.drop_last().filter(p) =~= Seq::<Log>::empty());
    assert(s.filter(p) =~= (if p(l) {
        seq![l]
    } else {
        Seq::empty()
    }));
}

/// Picking where nothing is to be picked.
proof fn lemma_pick_none(s: Seq<Log>, p: spec_fn(Log) -> bool)
    requires
        forall|i: int| 0 <= i < s.len() ==> !p(#[trigger] s[i]),
    ensures
        s.filter(p) == Seq::<Log>::empty(),
    decreases s.len(),
{
    reveal(Seq::filter);
    if s.len() > 0 {
        assert forall|i: int| 0 <= i < s.drop_last().len() implies !p(
            #[trigger] s.drop_last()[i],
        ) by {
            assert(s.drop_last()[i] == s[i]);
        }
        lemma_pick_none(s.drop_last(), p);
        assert(!p(s[s.len() - 1]));
    } else {
        assert(s.filter(p) =~= Seq::<Log>::empty());
    }
}

// -------------------------------------------------------------------------- searching

/// The middle record between two.
proof fn lemma_middle(at: int, lo: int, hi: int) -> (k: int)
    requires
        lo <= hi,
    ensures
        lo <= k <= hi,
        model::middle(image::idx_at(at, lo), image::idx_at(at, hi)) == image::idx_at(at, k),
{
    let n = hi - lo;
    let h = (n + 1) / 2;
    assert(image::idx_at(at, hi) - image::idx_at(at, lo) == 16 * n);
    assert((16 * n) / 2 == 8 * n);
    if n > 0 {
        assert((8 * n + 16 - 1) / 16 == h) by {
            if n % 2 == 0 {
                assert(n == 2 * (n / 2));
            } else {
                assert(n == 2 * (n / 2) + 1);
            }
        }
    }
    lo + h
}

/// Whether the first `i` logs come before the time `from` and the others do not.
pub open spec fn parts(recs: Seq<Entry>, i: int, from: int) -> bool {
    &&& 0 <= i <= recs.len()
    &&& forall|k: int| 0 <= k < i ==> (#[trigger] recs[k]).time < from
    &&& forall|k: int| i <= k < recs.len() ==> (#[trigger] recs[k]).time >= from
}

/// Where the search for a time ends: at the first log with that time or later on the way
/// on; on the way back at the log with that time, or where the last log before it lies.
proof fn lemma_search(
    m: Medium,
    geo: Geo,
    max_len: int,
    at: int,
    p: Page,
    lo: int,
    hi: int,
    from: int,
    to: int,
) -> (i: int)
    requires
        image::page_at(m.bytes, geo, at, p),
        m.bytes.len() <= 0xFFFF_FFFF,
        0 <= lo <= hi < p.recs.len(),
        forall|k: int| 0 <= k < lo ==> (#[trigger] p.recs[k]).time < from,
        forall|k: int| hi < k < p.recs.len() ==> (#[trigger] p.recs[k]).time > from,
    ensures
        parts(p.recs, i, from),
        ({
            let a = model::search(
                m,
                max_len,
                image::idx_at(at, lo),
                image::idx_at(at, hi),
                from,
                to,
            );
            if i < p.recs.len() && p.recs[i].time == from {
                a == image::idx_at(at, i)
            } else {
                a == model::settle(m, max_len, image::idx_at(at, i), from, to)
            }
        }),
    decreases hi - lo,
{
    let k = lemma_middle(at, lo, hi);
    image::lemma_log(m, geo, max_len, at, p, k);
    image::lemma_entry(m.bytes, geo, at, p, k);
    image::lemma_open_page(m.bytes, geo, at, p);
    image::lemma_total(p.recs, 0, p.recs.len() as int);
    let mid = image::idx_at(at, k);
    assert(model::address(mid) == mid);
    let t = p.recs[k].time;
    if t < from {
        assert forall|j: int| 0 <= j < k + 1 implies (#[trigger] p.recs[j]).time < from by {
            if j < k {
                assert(p.recs[j].time < p.recs[k].time);
            }
        }
        if k + 1 > hi {
            k + 1
        } else {
            lemma_search(m, geo, max_len, at, p, k + 1, hi, from, to)
        }
    } else if t > from {
        assert forall|j: int| k - 1 < j < p.recs.len() implies (#[trigger] p.recs[j]).time
            > from by {
            if j > k {
                assert(p.recs[k].time < p.recs[j].time);
            }
        }
        if lo > k - 1 {
            lo
        } else {
            lemma_search(m, geo, max_len, at, p, lo, k - 1, from, to)
        }
    } else {
        assert forall|j: int| 0 <= j < k implies (#[trigger] p.recs[j]).time < from by {
            assert(p.recs[j].time < p.recs[k].time);
        }
        assert forall|j: int| k <= j < p.recs.len() implies (#[trigger] p.recs[j]).time
            >= from by {
            if j > k {
                assert(p.recs[k].time < p.recs[j].time);
            }
        }
        k
    }
}

// ------------------------------------------------------------------------ on the way on

/// Scanning the logs of a sector upwards from the `i`th on, which has the time `from` or
/// comes later.
proof fn lemma_scan_up(
    m: Medium,
    geo: Geo,
    max_len: int,
    at: int,
    p: Page,
    s: TsSec,
    i: int,
    from: int,
    to: int,
)
    requires
        image::page_at(m.bytes, geo, at, p),
        m.bytes.len() <= 0xFFFF_FFFF,
        s.status != SectorStoreStatus::Empty,
        s.end_idx == image::idx_at(at, p.recs.len() - 1),
        0 <= i < p.recs.len(),
        from <= to,
        from <= p.recs[i].time,
    ensures
        ({
            let (logs, beyond) = model::scan(m, max_len, s, image::idx_at(at, i), from, to);
            let n = p.recs.len() as int;
            &&& logs == laws::page_logs(geo, at, p).subrange(i, n).filter(between(from, to))
            &&& beyond == (p.recs[n - 1].time > to)
        }),
    decreases p.recs.len() - i,
{
    let n = p.recs.len() as int;
    let all = laws::page_logs(geo, at, p);
    let pick = between(from, to);
    image::lemma_log(m, geo, max_len, at, p, i);
    image::lemma_entry(m.bytes, geo, at, p, i);
    image::lemma_open_page(m.bytes, geo, at, p);
    image::lemma_total(p.recs, 0, n);
    let t = p.recs[i].time;
    if t > to {
        assert forall|k: int| 0 <= k < all.subrange(i, n).len() implies !pick(
            #[trigger] all.subrange(i, n)[k],
        ) by {
            if k > 0 {
                assert(p.recs[i].time < p.recs[i + k].time);
            }
        }
        lemma_pick_none(all.subrange(i, n), pick);
        if i < n - 1 {
            assert(p.recs[i].time < p.recs[n - 1].time);
        }
    } else {
        lemma_pick_one(all[i], pick);
        assert(pick(all[i]));
        if i + 1 < n {
            image::lemma_entry(m.bytes, geo, at, p, i + 1);
            assert(p.recs[i].time < p.recs[i + 1].time);
            lemma_scan_up(m, geo, max_len, at, p, s, i + 1, from, to);
            assert(all.subrange(i, n) =~= seq![all[i]] + all.subrange(i + 1, n));
            Seq::filter_distributes_over_add(seq![all[i]], all.subrange(i + 1, n), pick);
        } else {
            assert(all.subrange(i, n) =~= seq![all[i]]);
        }
    }
}

/// Searching and scanning the logs of a sector upwards.
proof fn lemma_pick_up(
    m: Medium,
    geo: Geo,
    max_len: int,
    at: int,
    p: Page,
    s: TsSec,
    from: int,
    to: int,
)
    requires
        image::page_at(m.bytes, geo, at, p),
        m.bytes.len() <= 0xFFFF_FFFF,
        p.recs.len() > 0,
        s.status != SectorStoreStatus::Empty,
        s.at == at,
        s.end_idx == image::idx_at(at, p.recs.len() - 1),
        from <= to,
        from <= p.recs.last().time,
    ensures
        ({
            let start = model::search(m, max_len, s.at + 32, s.end_idx, from, to);
            let (logs, beyond) = model::scan(m, max_len, s, start, from, to);
            &&& logs == laws::page_logs(geo, at, p).filter(between(from, to))
            &&& beyond == (p.recs.last().time > to)
        }),
{
    let n = p.recs.len() as int;
    let all = laws::page_logs(geo, at, p);
    let pick = between(from, to);
    assert(image::idx_at(at, 0) == s.at + 32);
    let i = lemma_search(m, geo, max_len, at, p, 0, n - 1, from, to);
    assert(i < n) by {
        if i == n {
            assert(p.recs[n - 1].time < from);
        }
    }
    image::lemma_entry(m.bytes, geo, at, p, i);
    assert(model::address(image::idx_at(at, i)) == image::idx_at(at, i));
    lemma_scan_up(m, geo, max_len, at, p, s, i, from, to);
    assert forall|k: int| 0 <= k < all.subrange(0, i).len() implies !pick(
        #[trigger] all.subrange(0, i)[k],
    ) by {
        assert(p.recs[k].time < from);
    }
    lemma_pick_none(all.subrange(0, i), pick);
    assert(all =~= all.subrange(0, i) + all.subrange(i, n));
    Seq::filter_distributes_over_add(all.subrange(0, i), all.subrange(i, n), pick);
    assert(Seq::<Log>::empty() + all.subrange(i, n).filter(pick) =~= all.subrange(i, n).filter(
        pick,
    ));
}

/// Whether all logs that are still to come on a walk that has come past `t` bytes come
/// later than `time`.
pub open spec fn later(geo: Geo, d: Map<int, Page>, o: int, t: int, time: int) -> bool {
    forall|x: int|
        db::is_sector(geo, x) && ring::dist(geo, o, x) >= t && (#[trigger] d[x]).recs.len() > 0
            ==> d[x].recs[0].time > time
}

/// Where all logs come later than a range nothing of them lies in it.
proof fn lemma_pick_later(st: TsState, d: Map<int, Page>, t: int, lo: int, hi: int)
    requires
        laws::good(st, d),
        ring::on_walk(st.geo, st.oldest, t),
        later(st.geo, d, st.oldest, t, hi),
    ensures
        laws::logs_of(st.geo, d, st.oldest, t).filter(between(lo, hi)) == Seq::<Log>::empty(),
    decreases st.geo.max - t,
{
    let geo = st.geo;
    let o = st.oldest;
    let at = ring::at(geo, o, t);
    let pick = between(lo, hi);
    ring::lemma_walk(geo, o, t);
    let here = laws::page_logs(geo, at, d[at]);
    assert(image::page_at(st.m.bytes, geo, at, d[at]));
    image::lemma_open_page(st.m.bytes, geo, at, d[at]);
    assert forall|k: int| 0 <= k < here.len() implies !pick(#[trigger] here[k]) by {
        assert(d[at].recs[0].time > hi);
        if k > 0 {
            assert(d[at].recs[0].time < d[at].recs[k].time);
        }
    }
    lemma_pick_none(here, pick);
    if t + geo.sec < geo.max {
        lemma_pick_later(st, d, t + geo.sec, lo, hi);
        let rest = laws::logs_of(geo, d, o, t + geo.sec);
        Seq::filter_distributes_over_add(here, rest, pick);
        assert(Seq::<Log>::empty() + Seq::<Log>::empty() =~= Seq::<Log>::empty());
    }
}

/// The logs of a range on a walk that goes on.
#[verifier::rlimit(60)]
proof fn lemma_by_time_up(st: TsState, d: Map<int, Page>, t: int, found: bool, from: int, to: int)
    requires
        laws::good(st, d),
        ring::on_walk(st.geo, st.oldest, t),
        from <= to,
        found ==> later(st.geo, d, st.oldest, t, from),
    ensures
        model::by_time_from(
            st,
            st.oldest,
            ring::at(st.geo, st.oldest, t),
            t,
            found,
            from,
            to,
        ) == laws::logs_of(st.geo, d, st.oldest, t).filter(between(from, to)),
    decreases st.geo.max - t,
{
    let geo = st.geo;
    let o = st.oldest;
    let at = ring::at(geo, o, t);
    let pick = between(from, to);
    ring::lemma_walk(geo, o, t);
    laws::lemma_here(st, d, at);
    let s = model::sector_here(st, at);
    let p = d[at];
    let n = p.recs.len() as int;
    let here = laws::page_logs(geo, at, p);
    assert(image::page_at(st.m.bytes, geo, at, p));
    image::lemma_open_page(st.m.bytes, geo, at, p);
    if n == 0 {
        // All sectors behind an empty one are empty.
        assert forall|x: int|
            db::is_sector(geo, x) && ring::dist(geo, o, x) >= t && (
            #[trigger] d[x]).recs.len() > 0 implies d[x].recs[0].time > to by {
            lemma_all_upto(st, d);
            assert(ring::dist(geo, o, x) <= ring::dist(geo, o, st.cur.at));
            if t < ring::dist(geo, o, st.cur.at) {
                assert(d[at].store == SectorStoreStatus::Full);
            } else {
                ring::lemma_dist(geo, o, x);
                assert(x == at);
            }
        }
        lemma_pick_later(st, d, t, from, to);
    } else {
        if n > 1 {
            assert(p.recs[0].time < p.recs[n - 1].time);
        }
        let hit = found || model::starts_in(s, at == o, from, to);
        assert(found ==> p.recs[0].time > from);
        assert(hit == (from <= p.recs.last().time));
        if hit {
            lemma_pick_up(st.m, geo, st.max_len, at, p, s, from, to);
        } else {
            assert forall|k: int| 0 <= k < here.len() implies !pick(#[trigger] here[k]) by {
                if k < n - 1 {
                    assert(p.recs[k].time < p.recs[n - 1].time);
                }
            }
            lemma_pick_none(here, pick);
        }
        if t + geo.sec < geo.max {
            let rest = laws::logs_of(geo, d, o, t + geo.sec);
            Seq::filter_distributes_over_add(here, rest, pick);
            lemma_later(st, d, t, at);
            if hit && p.recs.last().time > to {
                lemma_pick_later(st, d, t + geo.sec, from, to);
                assert(here.filter(pick) + Seq::<Log>::empty() =~= here.filter(pick));
            } else {
                ring::lemma_walk(geo, o, t + geo.sec);
                lemma_by_time_up(st, d, t + geo.sec, found || hit, from, to);
            }
        }
    }
}

/// The logs behind a sector come later than those of the sector.
proof fn lemma_later(st: TsState, d: Map<int, Page>, t: int, at: int)
    requires
        laws::good(st, d),
        ring::on_walk(st.geo, st.oldest, t),
        at == ring::at(st.geo, st.oldest, t),
        d[at].recs.len() > 0,
    ensures
        forall|time: int|
            time <= d[at].recs.last().time ==> #[trigger] later(
                st.geo,
                d,
                st.oldest,
                t + st.geo.sec,
                time,
            ),
{
    let geo = st.geo;
    let o = st.oldest;
    ring::lemma_walk(geo, o, t);
    assert forall|time: int| time <= d[at].recs.last().time implies #[trigger] later(
        geo,
        d,
        o,
        t + geo.sec,
        time,
    ) by {
        assert forall|x: int|
            db::is_sector(geo, x) && ring::dist(geo, o, x) >= t + geo.sec && (
            #[trigger] d[x]).recs.len() > 0 implies d[x].recs[0].time > time by {
            assert(d[at].recs.last().time < d[x].recs[0].time);
        }
    }
}

/// A query by time whose first time is not the later one gives the logs whose time lies in
/// its range, in their order.
pub proof fn query_gives_the_range(st: TsState, d: Map<int, Page>, from: int, to: int)
    requires
        laws::good(st, d),
        from <= to,
    ensures
        model::by_time(st, from, to) == model::collect(st).filter(between(from, to)),
{
    ring::lemma_first(st.geo, st.oldest);
    laws::lemma_collect_from(st, d, 0);
    lemma_by_time_up(st, d, 0, false, from, to);
}

// ---------------------------------------------------------------------- on the way back

/// The last log comes first in the reverse.
proof fn lemma_reverse_end(a: Seq<Log>, x: Log)
    ensures
        (a + seq![x]).reverse() == seq![x] + a.reverse(),
{
    assert((a + seq![x]).reverse() =~= seq![x] + a.reverse());
}

/// Scanning the logs of a sector downwards from the `i`th on, which has the time `from` or
/// comes earlier.
#[verifier::rlimit(40)]
proof fn lemma_scan_down(
    m: Medium,
    geo: Geo,
    max_len: int,
    at: int,
    p: Page,
    s: TsSec,
    i: int,
    from: int,
    to: int,
)
    requires
        image::page_at(m.bytes, geo, at, p),
        s.status != SectorStoreStatus::Empty,
        s.at == at,
        0 <= i < p.recs.len(),
        from > to,
        p.recs[i].time <= from,
    ensures
        ({
            let (logs, beyond) = model::scan(m, max_len, s, image::idx_at(at, i), from, to);
            &&& logs == laws::page_logs(geo, at, p).subrange(0, i + 1).filter(
                between(to, from),
            ).reverse()
            &&& beyond == (p.recs[0].time < to)
        }),
    decreases i,
{
    let all = laws::page_logs(geo, at, p);
    let pick = between(to, from);
    image::lemma_log(m, geo, max_len, at, p, i);
    image::lemma_entry(m.bytes, geo, at, p, i);
    image::lemma_open_page(m.bytes, geo, at, p);
    let low = all.subrange(0, i + 1);
    let t = p.recs[i].time;
    if i > 0 {
        assert(p.recs[0].time < p.recs[i].time);
    }
    if t < to {
        assert forall|k: int| 0 <= k < low.len() implies !pick(#[trigger] low[k]) by {
            if k < i {
                assert(p.recs[k].time < p.recs[i].time);
            }
        }
        lemma_pick_none(low, pick);
        assert(low.filter(pick).reverse() =~= Seq::<Log>::empty());
    } else {
        lemma_pick_one(all[i], pick);
        assert(pick(all[i]));
        if i > 0 {
            assert(p.recs[i - 1].time < p.recs[i].time);
            lemma_scan_down(m, geo, max_len, at, p, s, i - 1, from, to);
            let rest = all.subrange(0, i);
            assert(low =~= rest + seq![all[i]]);
            Seq::filter_distributes_over_add(rest, seq![all[i]], pick);
            lemma_reverse_end(rest.filter(pick), all[i]);
        } else {
            assert(low =~= seq![all[0]]);
            lemma_reverse_end(Seq::<Log>::empty(), all[0]);
            assert(Seq::<Log>::empty() + seq![all[0]] =~= seq![all[0]]);
            assert(seq![all[0]] + Seq::<Log>::empty().reverse() =~= seq![all[0]]);
        }
    }
}

/// Where the search on the way back ends: at the last log that is not later than `from`.
#[verifier::rlimit(40)]
proof fn lemma_down_start(
    m: Medium,
    geo: Geo,
    max_len: int,
    at: int,
    p: Page,
    s: TsSec,
    from: int,
    to: int,
) -> (last: int)
    requires
        image::page_at(m.bytes, geo, at, p),
        m.bytes.len() <= 0xFFFF_FFFF,
        p.recs.len() > 0,
        s.at == at,
        s.end_idx == image::idx_at(at, p.recs.len() - 1),
        from > to,
        from >= p.recs[0].time,
    ensures
        0 <= last < p.recs.len(),
        p.recs[last].time <= from,
        forall|q: int| last < q < p.recs.len() ==> (#[trigger] p.recs[q]).time > from,
        model::first_record(m, max_len, s, from, to) == image::idx_at(at, last),
{
    let n = p.recs.len() as int;
    assert(image::idx_at(at, 0) == s.at + 32);
    let i = lemma_search(m, geo, max_len, at, p, 0, n - 1, from, to);
    assert(image::page_ok(geo, p) && 0 <= at && at + geo.sec <= m.bytes.len()) by {
        image::lemma_open_page(m.bytes, geo, at, p);
    }
    image::lemma_total(p.recs, 0, n);
    let start = model::search(m, max_len, s.at + 32, s.end_idx, from, to);
    assert(model::address(image::idx_at(at, i)) == image::idx_at(at, i));
    assert(i > 0 ==> model::address(image::idx_at(at, i) - 16) == image::idx_at(at, i - 1));
    let last = if i < n && p.recs[i].time == from {
        i
    } else {
        i - 1
    };
    if i == 0 {
        assert(p.recs[0].time >= from);
    }
    if last != i && i < n {
        image::lemma_log(m, geo, max_len, at, p, i);
        assert(p.recs[i].time >= from);
    }
    assert forall|q: int| last < q < n implies (#[trigger] p.recs[q]).time > from by {
        assert(p.recs[q].time >= from);
        if q > i {
            assert(p.recs[i].time < p.recs[q].time);
        }
    }
    last
}

/// What scanning on the way back gives from where the search ends.
#[verifier::rlimit(40)]
proof fn lemma_pick_down(
    m: Medium,
    geo: Geo,
    max_len: int,
    at: int,
    p: Page,
    s: TsSec,
    from: int,
    to: int,
)
    requires
        image::page_at(m.bytes, geo, at, p),
        m.bytes.len() <= 0xFFFF_FFFF,
        p.recs.len() > 0,
        s.status != SectorStoreStatus::Empty,
        s.at == at,
        s.end_idx == image::idx_at(at, p.recs.len() - 1),
        from > to,
        from >= p.recs[0].time,
    ensures
        ({
            let start = model::first_record(m, max_len, s, from, to);
            let (logs, beyond) = model::scan(m, max_len, s, start, from, to);
            &&& logs == laws::page_logs(geo, at, p).filter(between(to, from)).reverse()
            &&& beyond == (p.recs[0].time < to)
        }),
{
    let n = p.recs.len() as int;
    let all = laws::page_logs(geo, at, p);
    let pick = between(to, from);
    let last = lemma_down_start(m, geo, max_len, at, p, s, from, to);
    lemma_scan_down(m, geo, max_len, at, p, s, last, from, to);
    assert forall|q: int| last < q < n implies !pick(#[trigger] all[q]) by {
        assert(p.recs[q].time > from);
    }
    lemma_pick_low(all, last, pick);
}

/// Nothing is picked behind the `last`th log.
proof fn lemma_pick_low(all: Seq<Log>, last: int, pick: spec_fn(Log) -> bool)
    requires
        0 <= last < all.len(),
        forall|q: int| last < q < all.len() ==> !pick(#[trigger] all[q]),
    ensures
        all.filter(pick) == all.subrange(0, last + 1).filter(pick),
{
    let low = all.subrange(0, last + 1);
    let high = all.subrange(last + 1, all.len() as int);
    assert(all =~= low + high);
    assert forall|k: int| 0 <= k < high.len() implies !pick(#[trigger] high[k]) by {
        assert(high[k] == all[last + 1 + k]);
    }
    lemma_pick_none(high, pick);
    Seq::filter_distributes_over_add(low, high, pick);
    assert(low.filter(pick) + Seq::<Log>::empty() =~= low.filter(pick));
}

/// Whether all logs up to the sector that a walk comes to after `u` bytes come before
/// `time`.
pub open spec fn earlier(geo: Geo, d: Map<int, Page>, o: int, u: int, time: int) -> bool {
    forall|x: int|
        db::is_sector(geo, x) && ring::dist(geo, o, x) <= u && (#[trigger] d[x]).recs.len() > 0
            ==> d[x].recs.last().time < time
}

/// Where all logs come before a range nothing of them lies in it.
proof fn lemma_pick_earlier(st: TsState, d: Map<int, Page>, u: int, lo: int, hi: int)
    requires
        laws::good(st, d),
        ring::on_walk(st.geo, st.oldest, u),
        earlier(st.geo, d, st.oldest, u, lo),
    ensures
        logs_upto(st.geo, d, st.oldest, u).filter(between(lo, hi)) == Seq::<Log>::empty(),
    decreases u,
{
    let geo = st.geo;
    let o = st.oldest;
    let at = ring::at(geo, o, u);
    let pick = between(lo, hi);
    ring::lemma_walk(geo, o, u);
    let p = d[at];
    let n = p.recs.len() as int;
    let here = laws::page_logs(geo, at, p);
    assert(image::page_at(st.m.bytes, geo, at, p));
    image::lemma_open_page(st.m.bytes, geo, at, p);
    assert forall|k: int| 0 <= k < here.len() implies !pick(#[trigger] here[k]) by {
        assert(p.recs.last().time < lo);
        if k < n - 1 {
            assert(p.recs[k].time < p.recs[n - 1].time);
        }
    }
    lemma_pick_none(here, pick);
    if u >= geo.sec {
        lemma_step_back(geo, o, u);
        lemma_pick_earlier(st, d, u - geo.sec, lo, hi);
        let rest = logs_upto(geo, d, o, u - geo.sec);
        Seq::filter_distributes_over_add(rest, here, pick);
        assert(Seq::<Log>::empty() + Seq::<Log>::empty() =~= Seq::<Log>::empty());
    }
}

/// The logs before a sector come before those of the sector.
proof fn lemma_earlier(st: TsState, d: Map<int, Page>, u: int, at: int)
    requires
        laws::good(st, d),
        ring::on_walk(st.geo, st.oldest, u),
        at == ring::at(st.geo, st.oldest, u),
        d[at].recs.len() > 0,
    ensures
        forall|time: int|
            time >= d[at].recs[0].time ==> #[trigger] earlier(
                st.geo,
                d,
                st.oldest,
                u - st.geo.sec,
                time,
            ),
{
    let geo = st.geo;
    let o = st.oldest;
    ring::lemma_walk(geo, o, u);
    assert forall|time: int| time >= d[at].recs[0].time implies #[trigger] earlier(
        geo,
        d,
        o,
        u - geo.sec,
        time,
    ) by {
        assert forall|x: int|
            db::is_sector(geo, x) && ring::dist(geo, o, x) <= u - geo.sec && (
            #[trigger] d[x]).recs.len() > 0 implies d[x].recs.last().time < time by {
            assert(d[x].recs.last().time < d[at].recs[0].time);
        }
    }
}

/// What a sector gives to a query on the way back.
proof fn lemma_here_down(
    st: TsState,
    d: Map<int, Page>,
    u: int,
    found: bool,
    from: int,
    to: int,
)
    requires
        laws::good(st, d),
        ring::on_walk(st.geo, st.oldest, u),
        d[ring::at(st.geo, st.oldest, u)].recs.len() > 0,
        from > to,
        found ==> earlier(st.geo, d, st.oldest, u, from),
    ensures
        ({
            let at = ring::at(st.geo, st.oldest, u);
            let s = model::sector_here(st, at);
            let hit = found || model::starts_in(s, at == st.cur.at, from, to);
            let (logs, beyond) = if hit {
                model::scan(
                    st.m,
                    st.max_len,
                    s,
                    model::first_record(st.m, st.max_len, s, from, to),
                    from,
                    to,
                )
            } else {
                (Seq::empty(), false)
            };
            &&& hit == (from >= d[at].recs[0].time)
            &&& logs == laws::page_logs(st.geo, at, d[at]).filter(between(to, from)).reverse()
            &&& beyond == (hit && d[at].recs[0].time < to)
        }),
{
    let geo = st.geo;
    let at = ring::at(geo, st.oldest, u);
    let pick = between(to, from);
    ring::lemma_walk(geo, st.oldest, u);
    laws::lemma_here(st, d, at);
    let s = model::sector_here(st, at);
    let p = d[at];
    let n = p.recs.len() as int;
    let here = laws::page_logs(geo, at, p);
    assert(image::page_at(st.m.bytes, geo, at, p));
    image::lemma_open_page(st.m.bytes, geo, at, p);
    if n > 1 {
        assert(p.recs[0].time < p.recs[n - 1].time);
    }
    assert(found ==> p.recs.last().time < from);
    if from >= p.recs[0].time {
        lemma_pick_down(st.m, geo, st.max_len, at, p, s, from, to);
    } else {
        assert forall|k: int| 0 <= k < here.len() implies !pick(#[trigger] here[k]) by {
            if k > 0 {
                assert(p.recs[0].time < p.recs[k].time);
            }
        }
        lemma_pick_none(here, pick);
        assert(here.filter(pick).reverse() =~= Seq::<Log>::empty());
    }
}

/// The logs of a range on a walk that goes back.
#[verifier::rlimit(60)]
proof fn lemma_by_time_down(
    st: TsState,
    d: Map<int, Page>,
    u: int,
    found: bool,
    from: int,
    to: int,
)
    requires
        laws::good(st, d),
        ring::on_walk(st.geo, st.oldest, u),
        u <= ring::dist(st.geo, st.oldest, st.cur.at),
        d[st.cur.at].recs.len() > 0,
        from > to,
        found ==> earlier(st.geo, d, st.oldest, u, from),
    ensures
        model::by_time_from(
            st,
            st.cur.at,
            ring::at(st.geo, st.oldest, u),
            ring::dist(st.geo, st.oldest, st.cur.at) - u,
            found,
            from,
            to,
        ) == logs_upto(st.geo, d, st.oldest, u).filter(between(to, from)).reverse(),
    decreases u,
{
    let geo = st.geo;
    let o = st.oldest;
    let c = ring::dist(geo, o, st.cur.at);
    let at = ring::at(geo, o, u);
    let t = c - u;
    let pick = between(to, from);
    ring::lemma_walk(geo, o, u);
    ring::lemma_dist(geo, o, st.cur.at);
    ring::lemma_walk(geo, o, c);
    laws::lemma_here(st, d, at);
    assert(image::page_at(st.m.bytes, geo, at, d[at]));
    image::lemma_open_page(st.m.bytes, geo, at, d[at]);
    assert(d[at].recs.len() > 0) by {
        if u < c {
            assert(d[at].store == SectorStoreStatus::Full);
        }
    }
    let s = model::sector_here(st, at);
    let here = laws::page_logs(geo, at, d[at]);
    lemma_here_down(st, d, u, found, from, to);
    let hit = from >= d[at].recs[0].time;
    let beyond = hit && d[at].recs[0].time < to;
    let now = here.filter(pick).reverse();
    if u >= geo.sec {
        lemma_step_back(geo, o, u);
        lemma_earlier(st, d, u, at);
        let low = logs_upto(geo, d, o, u - geo.sec);
        Seq::filter_distributes_over_add(low, here, pick);
        assert((low.filter(pick) + here.filter(pick)).reverse() =~= now + low.filter(
            pick,
        ).reverse());
        if beyond {
            lemma_pick_earlier(st, d, u - geo.sec, to, from);
            assert(now + low.filter(pick).reverse() =~= now);
        } else {
            lemma_by_time_down(st, d, u - geo.sec, found || hit, from, to);
        }
    } else {
        lemma_small(geo, o, u);
        lemma_before_oldest(st, d, c);
        match model::last_sector(geo, o, c + geo.sec) {
            Some(a) => {
                laws::lemma_here(st, d, a);
                assert(model::by_time_from(
                    st,
                    st.cur.at,
                    a,
                    t + geo.sec,
                    found || hit,
                    from,
                    to,
                ) == Seq::<Log>::empty());
                assert(now + Seq::<Log>::empty() =~= now);
            },
            None => {},
        }
    }
}

/// A query by time whose first time is the later one gives the logs whose time lies in its
/// range, in reverse.
pub proof fn query_back_gives_the_range_in_reverse(
    st: TsState,
    d: Map<int, Page>,
    from: int,
    to: int,
)
    requires
        laws::good(st, d),
        from > to,
    ensures
        model::by_time(st, from, to) == model::collect(st).filter(between(to, from)).reverse(),
{
    let geo = st.geo;
    ring::lemma_first(geo, st.oldest);
    laws::lemma_collect_from(st, d, 0);
    lemma_all_upto(st, d);
    let c = st.cur.at;
    let u = ring::dist(geo, st.oldest, c);
    if d[c].recs.len() > 0 {
        lemma_by_time_down(st, d, u, false, from, to);
    } else {
        assert(image::page_at(st.m.bytes, geo, c, d[c]));
        image::lemma_open_page(st.m.bytes, geo, c, d[c]);
        laws::lemma_here(st, d, c);
        assert(laws::page_logs(geo, c, d[c]) =~= Seq::<Log>::empty());
        assert(logs_upto(geo, d, st.oldest, u) =~= Seq::<Log>::empty());
        lemma_pick_none(model::collect(st), between(to, from));
        assert(Seq::<Log>::empty().reverse() =~= Seq::<Log>::empty());
    }
}

// --------------------------------------------------------------------------- counting

/// Whether a log has this status.
pub open spec fn marked(status: TslStatus) -> spec_fn(Log) -> bool {
    |l: Log| l.status == status
}

/// Counting the logs with a status is picking them.
proof fn lemma_count(logs: Seq<Log>, status: TslStatus)
    ensures
        model::count_status(logs, status) == logs.filter(marked(status)).len(),
    decreases logs.len(),
{
    reveal(Seq::filter);
    if logs.len() > 0 {
        lemma_count(logs.drop_last(), status);
    }
}

/// Counting does not depend on the order.
proof fn lemma_count_reverse(logs: Seq<Log>, status: TslStatus)
    ensures
        logs.reverse().filter(marked(status)).len() == logs.filter(marked(status)).len(),
    decreases logs.len(),
{
    let p = marked(status);
    if logs.len() > 0 {
        let low = logs.drop_last();
        let l = logs.last();
        lemma_count_reverse(low, status);
        assert(logs =~= low + seq![l]);
        assert(logs.reverse() =~= seq![l] + low.reverse());
        Seq::filter_distributes_over_add(low, seq![l], p);
        Seq::filter_distributes_over_add(seq![l], low.reverse(), p);
    } else {
        assert(logs.reverse() =~= logs);
    }
}

/// A counting query counts the logs of its range with the given status, whichever way the
/// range is given.
pub proof fn count_counts_the_range(
    st: TsState,
    d: Map<int, Page>,
    from: int,
    to: int,
    status: TslStatus,
)
    requires
        laws::good(st, d),
    ensures
        model::count_status(model::by_time(st, from, to), status) == model::collect(st).filter(
            if from <= to {
                between(from, to)
            } else {
                between(to, from)
            },
        ).filter(marked(status)).len(),
{
    lemma_count(model::by_time(st, from, to), status);
    if from <= to {
        query_gives_the_range(st, d, from, to);
    } else {
        query_back_gives_the_range_in_reverse(st, d, from, to);
        lemma_count_reverse(model::collect(st).filter(between(to, from)), status);
    }
}

// ------------------------------------------------------------------- by time, log by log

/// The logs of a walk are logs of the sectors on its way.
proof fn lemma_whence(geo: Geo, d: Map<int, Page>, o: int, t: int, k: int) -> (r: (int, int))
    requires
        ring::on_walk(geo, o, t),
        0 <= k < laws::logs_of(geo, d, o, t).len(),
    ensures
        db::is_sector(geo, r.0),
        ring::dist(geo, o, r.0) >= t,
        0 <= r.1 < d[r.0].recs.len(),
        laws::logs_of(geo, d, o, t)[k].time == d[r.0].recs[r.1].time,
    decreases geo.max - t,
{
    let at = ring::at(geo, o, t);
    ring::lemma_walk(geo, o, t);
    let here = laws::page_logs(geo, at, d[at]);
    if k < here.len() {
        assert(laws::logs_of(geo, d, o, t)[k] == here[k]);
        (at, k)
    } else {
        let rest = laws::logs_of(geo, d, o, t + geo.sec);
        assert(laws::logs_of(geo, d, o, t)[k] == rest[k - here.len()]);
        lemma_whence(geo, d, o, t + geo.sec, k - here.len())
    }
}

/// The logs of a walk come in the order of their times.
proof fn lemma_in_order(m: Medium, geo: Geo, d: Map<int, Page>, o: int, t: int)
    requires
        image::holds_image(m, geo, d),
        laws::ordered(geo, d, o),
        ring::on_walk(geo, o, t),
    ensures
        rising(laws::logs_of(geo, d, o, t)),
    decreases geo.max - t,
{
    let at = ring::at(geo, o, t);
    ring::lemma_walk(geo, o, t);
    let here = laws::page_logs(geo, at, d[at]);
    let all = laws::logs_of(geo, d, o, t);
    assert(image::page_at(m.bytes, geo, at, d[at]));
    image::lemma_open_page(m.bytes, geo, at, d[at]);
    if t + geo.sec < geo.max {
        let rest = laws::logs_of(geo, d, o, t + geo.sec);
        lemma_in_order(m, geo, d, o, t + geo.sec);
        assert forall|k: int, l: int| 0 <= k < l < all.len() implies (#[trigger] all[k]).time < (
        #[trigger] all[l]).time by {
            if l < here.len() {
                assert(all[k] == here[k] && all[l] == here[l]);
                assert(d[at].recs[k].time < d[at].recs[l].time);
            } else {
                assert(all[l] == rest[l - here.len()]);
                if k < here.len() {
                    assert(all[k] == here[k]);
                    let (x, i) = lemma_whence(geo, d, o, t + geo.sec, l - here.len());
                    assert(image::page_at(m.bytes, geo, x, d[x]));
                    image::lemma_open_page(m.bytes, geo, x, d[x]);
                    let n = d[at].recs.len() - 1;
                    assert(d[at].recs.last().time < d[x].recs[0].time);
                    if k < n {
                        assert(d[at].recs[k].time < d[at].recs[n].time);
                    }
                    if i > 0 {
                        assert(d[x].recs[0].time < d[x].recs[i].time);
                    }
                } else {
                    assert(all[k] == rest[k - here.len()]);
                }
            }
        }
    } else {
        assert forall|k: int, l: int| 0 <= k < l < all.len() implies (#[trigger] all[k]).time < (
        #[trigger] all[l]).time by {
            assert(d[at].recs[k].time < d[at].recs[l].time);
        }
    }
}

/// Whether each log comes later than those before it.
pub open spec fn rising(logs: Seq<Log>) -> bool {
    forall|k: int, l: int|
        0 <= k < l < logs.len() ==> (#[trigger] logs[k]).time < (#[trigger] logs[l]).time
}

/// What is picked are the logs that are asked for.
proof fn lemma_picked(logs: Seq<Log>, p: spec_fn(Log) -> bool)
    ensures
        forall|k: int|
            0 <= k < logs.filter(p).len() ==> p(#[trigger] logs.filter(p)[k]) && logs.contains(
                logs.filter(p)[k],
            ),
        forall|i: int|
            0 <= i < logs.len() && p(#[trigger] logs[i]) ==> logs.filter(p).contains(logs[i]),
    decreases logs.len(),
{
    reveal(Seq::filter);
    let out = logs.filter(p);
    if logs.len() > 0 {
        let low = logs.drop_last();
        let picked = low.filter(p);
        lemma_picked(low, p);
        assert forall|k: int| 0 <= k < out.len() implies p(#[trigger] out[k]) && logs.contains(
            out[k],
        ) by {
            if k < picked.len() {
                assert(out[k] == picked[k]);
                assert(low.contains(picked[k]));
                let i = choose|i: int| 0 <= i < low.len() && low[i] == picked[k];
                assert(logs[i] == out[k]);
            } else {
                assert(out[k] == logs[logs.len() - 1]);
            }
        }
        assert forall|i: int| 0 <= i < logs.len() && p(#[trigger] logs[i]) implies out.contains(
            logs[i],
        ) by {
            if i < low.len() {
                assert(low[i] == logs[i]);
                assert(picked.contains(low[i]));
                let k = choose|k: int| 0 <= k < picked.len() && picked[k] == low[i];
                assert(out[k] == logs[i]);
            } else {
                assert(out[out.len() - 1] == logs[i]);
            }
        }
    }
}

/// Picking keeps the order.
proof fn lemma_pick_rising(logs: Seq<Log>, p: spec_fn(Log) -> bool)
    requires
        rising(logs),
    ensures
        rising(logs.filter(p)),
    decreases logs.len(),
{
    reveal(Seq::filter);
    if logs.len() > 0 {
        let low = logs.drop_last();
        assert(rising(low)) by {
            assert forall|k: int, l: int| 0 <= k < l < low.len() implies (#[trigger] low[k]).time < (
            #[trigger] low[l]).time by {
                assert(logs[k].time < logs[l].time);
            }
        }
        lemma_pick_rising(low, p);
        lemma_picked(low, p);
        let picked = low.filter(p);
        if p(logs.last()) {
            let out = picked.push(logs.last());
            assert(logs.filter(p) == out);
            assert forall|k: int, l: int| 0 <= k < l < out.len() implies (#[trigger] out[k]).time < (
            #[trigger] out[l]).time by {
                if l == picked.len() {
                    assert(low.contains(picked[k]));
                    let i = choose|i: int| 0 <= i < low.len() && low[i] == picked[k];
                    assert(logs[i].time < logs[logs.len() - 1].time);
                } else {
                    assert(picked[k].time < picked[l].time);
                }
            }
        }
    }
}

/// Collecting gives the logs in the order of their times, no two with the same.
pub proof fn logs_come_in_the_order_of_their_times(st: TsState, d: Map<int, Page>)
    requires
        laws::good(st, d),
    ensures
        forall|k: int, l: int|
            0 <= k < l < model::collect(st).len() ==> (#[trigger] model::collect(st)[k]).time < (
            #[trigger] model::collect(st)[l]).time,
{
    ring::lemma_first(st.geo, st.oldest);
    laws::lemma_collect_from(st, d, 0);
    lemma_in_order(st.m, st.geo, d, st.oldest, 0);
}

/// A query by time gives every log whose time lies between its two times, both of them counted
/// in, and no other. They come in the order of their times where the first time is not the
/// later one, and in the opposite order where it is.
pub proof fn a_query_gives_what_lies_between_its_times(
    st: TsState,
    d: Map<int, Page>,
    from: int,
    to: int,
)
    requires
        laws::good(st, d),
    ensures
        ({
            let all = model::collect(st);
            let got = model::by_time(st, from, to);
            &&& forall|k: int|
                0 <= k < got.len() ==> all.contains(#[trigger] got[k]) && (from <= got[k].time <= to
                    || to <= got[k].time <= from)
            &&& forall|k: int|
                0 <= k < all.len() && (from <= (#[trigger] all[k]).time <= to || to <= all[k].time
                    <= from) ==> got.contains(all[k])
            &&& from <= to ==> forall|k: int, l: int|
                0 <= k < l < got.len() ==> (#[trigger] got[k]).time < (#[trigger] got[l]).time
            &&& from > to ==> forall|k: int, l: int|
                0 <= k < l < got.len() ==> (#[trigger] got[k]).time > (#[trigger] got[l]).time
        }),
{
    let all = model::collect(st);
    let got = model::by_time(st, from, to);
    logs_come_in_the_order_of_their_times(st, d);
    assert(rising(all));
    if from <= to {
        query_gives_the_range(st, d, from, to);
        lemma_picked(all, between(from, to));
        lemma_pick_rising(all, between(from, to));
        assert forall|k: int| 0 <= k < got.len() implies all.contains(#[trigger] got[k]) && (from
            <= got[k].time <= to || to <= got[k].time <= from) by {
            assert(between(from, to)(got[k]));
        }
        assert forall|k: int|
            0 <= k < all.len() && (from <= (#[trigger] all[k]).time <= to || to <= all[k].time
                <= from) implies got.contains(all[k]) by {
            assert(between(from, to)(all[k]));
        }
    } else {
        query_back_gives_the_range_in_reverse(st, d, from, to);
        let p = between(to, from);
        let up = all.filter(p);
        lemma_picked(all, p);
        lemma_pick_rising(all, p);
        assert forall|k: int| 0 <= k < got.len() implies all.contains(#[trigger] got[k]) && (from
            <= got[k].time <= to || to <= got[k].time <= from) by {
            assert(got[k] == up[up.len() - 1 - k]);
            assert(p(up[up.len() - 1 - k]));
        }
        assert forall|k: int|
            0 <= k < all.len() && (from <= (#[trigger] all[k]).time <= to || to <= all[k].time
                <= from) implies got.contains(all[k]) by {
            assert(p(all[k]));
            assert(up.contains(all[k]));
            let i = choose|i: int| 0 <= i < up.len() && up[i] == all[k];
            assert(got[up.len() - 1 - i] == all[k]);
        }
        assert forall|k: int, l: int| 0 <= k < l < got.len() implies (#[trigger] got[k]).time > (
        #[trigger] got[l]).time by {
            assert(got[k] == up[up.len() - 1 - k]);
            assert(got[l] == up[up.len() - 1 - l]);
        }
    }
}

/// Where the logs with a status stand in a list.
pub open spec fn places(logs: Seq<Log>, status: TslStatus) -> Set<int> {
    Set::new(|k: int| 0 <= k < logs.len() && logs[k].status == status)
}

/// Counting the logs with a status counts the places of the list that hold one.
pub proof fn a_count_is_the_number_of_places(logs: Seq<Log>, status: TslStatus)
    ensures
        places(logs, status).finite(),
        places(logs, status).len() == model::count_status(logs, status),
    decreases logs.len(),
{
    if logs.len() == 0 {
        assert(places(logs, status) =~= Set::empty());
    } else {
        let low = logs.drop_last();
        let n = logs.len() - 1;
        a_count_is_the_number_of_places(low, status);
        if logs.last().status == status {
            assert(places(logs, status) =~= places(low, status).insert(n));
            assert(!places(low, status).contains(n));
        } else {
            assert(places(logs, status) =~= places(low, status));
        }
    }
}

} // verus!
