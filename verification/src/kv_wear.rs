//! How the key-value database levels the wear of its sectors: collecting garbage goes round,
//! and erases the dirty sectors one after another.
use vstd::prelude::*;

use crate::db;
use crate::db::Geo;
use crate::def::{KvStatus, SectorStoreStatus};
use crate::flash;
use crate::kv_gc as gc;
use crate::kv_image as image;
use crate::kv_image::Sect;
use crate::kv_lookup as lookup;
use crate::kv_model as model;
use crate::kv_model::{KvState, Node, SecInfo, SECTOR_NOT_COMBINED};
use crate::ring;
use crate::storage::Medium;

verus! {

// ------------------------------------------------------------- what erases no sector

proof fn lemma_read(m: Medium, geo: Geo, at: int)
    ensures
        model::after_read(m, geo, at).erases == m.erases,
{
    reveal(model::after_read);
}

proof fn lemma_tally(m: Medium, geo: Geo, s: SecInfo, n: Node)
    ensures
        model::tally(m, geo, s, n).0.erases == m.erases,
    decreases s.at + geo.sec - n.at,
{
    lemma_read(m, geo, n.at);
    let m1 = model::after_read(m, geo, n.at);
    let n1 = model::read_node(m, geo, n);
    if n1.crc_ok || n1.status == KvStatus::PreWrite || n1.status == KvStatus::ErrHdr {
        let end = n1.at + n1.len;
        let s1 = SecInfo { empty: model::sat(end), remain: s.at + geo.sec - end, ..s };
        match model::next_node(m1.bytes, geo, s1, n1) {
            None => {},
            Some(a) => {
                if n.at < a <= s.at + geo.sec {
                    lemma_tally(m1, geo, s1, Node { at: a, ..n1 });
                }
            },
        }
    }
}

proof fn lemma_full(m: Medium, geo: Geo, at: int)
    ensures
        model::sector_full(m, geo, at).0.erases == m.erases,
{
    let s = model::sector_head(m, at);
    if s.check_ok && s.store == SectorStoreStatus::Using {
        lemma_tally(
            m,
            geo,
            SecInfo { remain: geo.sec - 16, empty: at + 16, ..s },
            Node { at: at + 16, ..model::blank_node() },
        );
    }
}

proof fn lemma_alloc(
    m: Medium,
    geo: Geo,
    gcr: bool,
    want: SectorStoreStatus,
    size: int,
    at: int,
    traversed: int,
)
    ensures
        model::alloc_scan(m, geo, gcr, want, size, at, traversed).0.erases == m.erases,
    decreases geo.max - traversed,
{
    lemma_full(m, geo, at);
    let h = model::sector_head(m, at);
    let (m1, s) = if h.store == want {
        let f = model::sector_full(m, geo, at);
        (f.0, f.1)
    } else {
        (m, h)
    };
    if !(h.store == want && model::roomy(s, size, gcr)) {
        match model::next_sector(geo, s, traversed + geo.sec) {
            None => {},
            Some(a) => {
                if geo.sec > 0 && traversed < geo.max {
                    lemma_alloc(m1, geo, gcr, want, size, a, traversed + geo.sec);
                }
            },
        }
    }
}

proof fn lemma_find_room(st: KvState, size: int)
    ensures
        model::find_room(st, size).0.m.erases == st.m.erases,
{
    reveal(model::find_room);
    let u = SectorStoreStatus::Using;
    let e = SectorStoreStatus::Empty;
    lemma_alloc(st.m, st.geo, st.gc_request, u, size, st.oldest, 0);
    let m1 = model::alloc_scan(st.m, st.geo, st.gc_request, u, size, st.oldest, 0).0;
    lemma_alloc(m1, st.geo, st.gc_request, e, size, st.oldest, 0);
    lemma_alloc(st.m, st.geo, st.gc_request, e, size, st.oldest, 0);
}

proof fn lemma_find_in(m: Medium, geo: Geo, s: SecInfo, n: Node, key: Seq<u8>)
    ensures
        model::find_in_sector(m, geo, s, n, key).0.erases == m.erases,
    decreases s.at + geo.sec - n.at,
{
    lemma_read(m, geo, n.at);
    let m1 = model::after_read(m, geo, n.at);
    let n1 = model::read_node(m, geo, n);
    if !model::is_live(n1, key) {
        match model::next_node(m1.bytes, geo, s, n1) {
            None => {},
            Some(a) => {
                if n.at < a <= s.at + geo.sec {
                    lemma_find_in(m1, geo, s, Node { at: a, ..n1 }, key);
                }
            },
        }
    }
}

proof fn lemma_find_from(m: Medium, geo: Geo, key: Seq<u8>, at: int, traversed: int, n: Node)
    ensures
        model::find_from(m, geo, key, at, traversed, n).0.erases == m.erases,
    decreases geo.max - traversed,
{
    let s = model::sector_head(m, at);
    let n0 = Node { at: at + 16, ..n };
    lemma_find_in(m, geo, s, n0, key);
    let (m1, n1, found) = if model::has_nodes(s) {
        model::find_in_sector(m, geo, s, n0, key)
    } else {
        (m, n, false)
    };
    if !found {
        match model::next_sector(geo, s, traversed + geo.sec) {
            None => {},
            Some(a) => {
                if geo.sec > 0 && traversed < geo.max {
                    lemma_find_from(m1, geo, key, a, traversed + geo.sec, n1);
                }
            },
        }
    }
}

proof fn lemma_find(st: KvState, key: Seq<u8>)
    ensures
        model::find(st, key).0.erases == st.m.erases,
{
    reveal(model::find);
    lemma_find_from(st.m, st.geo, key, st.oldest, 0, model::blank_node());
}

proof fn lemma_copy(m: Medium, src: int, dst: int, total: int, done: int, buf: Seq<u8>)
    ensures
        model::copy_data(m, src, dst, total, done, buf).0.erases == m.erases,
    decreases total - done,
{
    if done < total {
        let size = model::least(32, total - done);
        let next = model::fetch_head(m, src + done, buf, size);
        let m1 = m.program(dst + done, next.subrange(0, size), true);
        lemma_copy(m1, src, dst, total, done + size, next);
    }
}

proof fn lemma_move_body(m: Medium, n: Node, s: SecInfo)
    ensures
        model::move_body(m, n, s).0.erases == m.erases,
{
    let m1 = model::note_use(m, s, n.len).0;
    let m2 = flash::put_status(m1, s.empty, 1, false);
    lemma_copy(m2, n.at + 4, s.empty + 4, n.len - 4, 0, flash::zeros(32));
}

proof fn lemma_delete(m: Medium, geo: Geo, at: int, complete: bool)
    ensures
        model::delete_at(m, geo, at, complete).0.erases == m.erases,
{
    reveal(model::delete_at);
}

proof fn lemma_move(st: KvState, n: Node)
    ensures
        model::move_node(st, n).0.m.erases == st.m.erases,
{
    reveal(model::move_node);
    lemma_delete(st.m, st.geo, n.at, false);
    let m0 = if n.status == KvStatus::Write {
        model::delete_at(st.m, st.geo, n.at, false).0
    } else {
        st.m
    };
    let sta = KvState { m: m0, ..st };
    lemma_find_room(sta, n.len);
    let (st1, slot) = model::find_room(sta, n.len);
    let key = n.name.subrange(0, n.name_len);
    lemma_find(st1, key);
    match slot {
        Some(s) => {
            let m1 = model::find(st1, key).0;
            lemma_move_body(m1, n, s);
            lemma_move_body(st1.m, n, s);
            lemma_delete(m1, st.geo, n.at, true);
            lemma_delete(model::move_body(m1, n, s).0, st.geo, n.at, true);
            lemma_delete(model::move_body(st1.m, n, s).0, st.geo, n.at, true);
        },
        None => {},
    }
}

/// Moving the records of a sector erases none.
proof fn lemma_evacuate(st: KvState, s: SecInfo, n: Node)
    ensures
        model::evacuate(st, s, n).m.erases == st.m.erases,
    decreases s.at + st.geo.sec - n.at,
{
    lemma_read(st.m, st.geo, n.at);
    let n1 = model::read_node(st.m, st.geo, n);
    let st1 = KvState { m: model::after_read(st.m, st.geo, n.at), ..st };
    lemma_move(st1, n1);
    let st2 = if n1.crc_ok && (n1.status == KvStatus::Write || n1.status == KvStatus::PreDelete) {
        model::move_node(st1, n1).0
    } else {
        st1
    };
    match model::next_node(st2.m.bytes, st.geo, s, n1) {
        None => {},
        Some(a) => {
            if n.at < a <= s.at + st.geo.sec {
                lemma_evacuate(KvState { geo: st.geo, ..st2 }, s, Node { at: a, ..n1 });
            }
        },
    }
}

// ------------------------------------------------------------------ what is collected

/// Whether the sector at `a` is dirty and a walk from the sector `o` on comes to it after `t`
/// bytes or more, and before `u` bytes.
pub open spec fn between(geo: Geo, d: Map<int, Sect>, o: int, t: int, u: int, a: int) -> bool {
    db::is_sector(geo, a) && gc::dirty(d[a]) && t <= ring::dist(geo, o, a) < u
}

/// Whether the sector at `a` is the last of these.
pub open spec fn last_between(geo: Geo, d: Map<int, Sect>, o: int, t: int, u: int, a: int) -> bool {
    between(geo, d, o, t, u, a) && forall|x: int| #[trigger]
        between(geo, d, o, t, u, x) ==> ring::dist(geo, o, x) <= ring::dist(geo, o, a)
}

/// Whether `st1` is what collecting the dirty sectors between `t` and `u` bytes of a walk from
/// the sector `o` on makes of `st`: these are erased and no others, and the sector behind the
/// last of them is the oldest one then.
pub open spec fn went_round(
    st: KvState,
    d: Map<int, Sect>,
    o: int,
    t: int,
    u: int,
    st1: KvState,
) -> bool {
    &&& forall|a: int, n: int| #[trigger]
        st1.m.erases.contains((a, n)) <==> st.m.erases.contains((a, n)) || (n == st.geo.sec
            && between(st.geo, d, o, t, u, a))
    &&& (forall|a: int| !#[trigger] between(st.geo, d, o, t, u, a)) ==> st1.oldest == st.oldest
    &&& forall|a: int| #[trigger]
        last_between(st.geo, d, o, t, u, a) ==> st1.oldest == ring::at(st.geo, a, st.geo.sec)
}

/// Collecting one sector.
proof fn lemma_collect(st: KvState, d: Map<int, Sect>, s: int, info: SecInfo, free: int, last: int)
    requires
        gc::collectable(st, d),
        db::is_sector(st.geo, s),
        image::heads(info, s, d[s]),
    ensures
        ({
            let st1 = model::collect_sector(st, info, free, last).0;
            &&& gc::dirty(d[s]) ==> st1.m.erases == st.m.erases.insert((s, st.geo.sec))
                && st1.oldest == ring::at(st.geo, s, st.geo.sec)
            &&& !gc::dirty(d[s]) ==> st1 == st
        }),
{
    reveal(model::collect_sector);
    let geo = st.geo;
    db::lemma_geo(geo);
    if gc::dirty(d[s]) {
        let st1 = KvState { m: flash::put_status(st.m, s + 1, 3, true), ..st };
        let n0 = Node { at: s + 16, ..model::blank_node() };
        lemma_evacuate(st1, info, n0);
        let da = gc::lemma_begin(st, d, s);
        gc::lemma_clear(st1, da, s, info);
        let st2 = model::evacuate(st1, info, n0);
        let m3 = model::format(st2.m, geo, s, SECTOR_NOT_COMBINED as int).0;
        lemma_full(m3, geo, last);
    }
}

/// Collecting the dirty sectors of a walk.
proof fn lemma_collect_from(st: KvState, d: Map<int, Sect>, o: int, t: int, free: int, last: int) -> (u:
    int)
    requires
        gc::collectable(st, d),
        ring::on_walk(st.geo, o, t),
        db::is_sector(st.geo, last),
    ensures
        t < u <= st.geo.max,
        went_round(
            st,
            d,
            o,
            t,
            u,
            model::collect_from(st, free, last, ring::at(st.geo, o, t), t),
        ),
    decreases st.geo.max - t,
{
    let geo = st.geo;
    let at = ring::at(geo, o, t);
    ring::lemma_walk(geo, o, t);
    image::lemma_head(st.m, geo, d, at);
    let s = model::sector_head(st.m, at);
    lemma_collect(st, d, at, s, free, last);
    let d1 = gc::lemma_collect_sector(st, d, at, s, free, last);
    let (st1, last1, stop) = model::collect_sector(st, s, free, last);
    lookup::lemma_next(geo, o, t, s);
    let st2 = model::collect_from(st, free, last, at, t);
    let on = !stop && t + geo.sec < geo.max;
    let u = if on {
        lemma_collect_from(st1, d1, o, t + geo.sec, free, last1)
    } else {
        t + geo.sec
    };
    assert forall|a: int| #[trigger] between(geo, d, o, t, u, a) <==> (a == at && gc::dirty(d[at]))
        || (on && between(geo, d1, o, t + geo.sec, u, a)) by {
        if db::is_sector(geo, a) && ring::dist(geo, o, a) >= t {
            ring::lemma_ahead(geo, o, t, a);
        }
        if db::is_sector(geo, a) && a != at {
            assert(d1[a].dirty == d[a].dirty);
        }
    }
    assert forall|a: int| #[trigger] last_between(geo, d, o, t, u, a) implies st2.oldest == ring::at(
        geo,
        a,
        geo.sec,
    ) by {
        assert(between(geo, d, o, t, u, a));
        if on {
            assert forall|x: int| #[trigger] between(geo, d1, o, t + geo.sec, u, x) implies ring::dist(
                geo,
                o,
                x,
            ) <= ring::dist(geo, o, a) by {
                assert(between(geo, d, o, t, u, x));
            }
            if a == at {
                assert forall|x: int| !#[trigger] between(geo, d1, o, t + geo.sec, u, x) by {
                    if between(geo, d1, o, t + geo.sec, u, x) {
                        assert(ring::dist(geo, o, x) <= t);
                    }
                }
            } else {
                assert(last_between(geo, d1, o, t + geo.sec, u, a));
            }
        }
    }
    if forall|a: int| !#[trigger] between(geo, d, o, t, u, a) {
        assert(!between(geo, d, o, t, u, at));
        if on {
            assert forall|x: int| !#[trigger] between(geo, d1, o, t + geo.sec, u, x) by {
                assert(!between(geo, d, o, t, u, x));
            }
        }
    }
    u
}

/// Wear is levelled: collecting garbage starts with the oldest sector and goes round. Up to
/// where it stops it erases every dirty sector on its way and passes over none, and it erases
/// no other. The sector behind the one that was erased last is then the oldest, so that the one
/// that was erased last is the last that the next collection comes to.
pub proof fn collecting_goes_round(st: KvState, d: Map<int, Sect>, free: int) -> (u: int)
    requires
        gc::collectable(st, d),
    ensures
        0 <= u <= st.geo.max,
        went_round(st, d, st.oldest, 0, u, model::gc(st, free)),
        forall|a: int| #[trigger]
            last_between(st.geo, d, st.oldest, 0, u, a) ==> ring::dist(
                st.geo,
                model::gc(st, free).oldest,
                a,
            ) == st.geo.max - st.geo.sec,
{
    reveal(model::gc);
    let geo = st.geo;
    let o = st.oldest;
    ring::lemma_first(geo, o);
    lookup::lemma_empties(st.m, geo, d, o, 0, 0, 0);
    let (n, last) = model::empty_sectors(st.m, geo, o, 0, 0, 0);
    let u = if n <= model::GC_EMPTY_SEC_THRESHOLD {
        lemma_collect_from(st, d, o, 0, free, last)
    } else {
        0
    };
    let st1 = model::gc(st, free);
    assert forall|a: int| #[trigger] last_between(geo, d, o, 0, u, a) implies ring::dist(
        geo,
        st1.oldest,
        a,
    ) == geo.max - geo.sec by {
        ring::lemma_dist(geo, o, a);
        db::lemma_geo(geo);
    }
    u
}

} // verus!
