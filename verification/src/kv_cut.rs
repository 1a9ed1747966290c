//! What a power loss leaves of garbage collection of the key-value database, and with it of
//! setting a name at any time.
use vstd::prelude::*;

use crate::db;
use crate::db::Geo;
use crate::def;
use crate::def::{KvStatus, SectorDirtyStatus, SectorStoreStatus, KV_NAME_MAX};
use crate::flash;
use crate::kv_change as change;
use crate::kv_dead as dead;
use crate::kv_gc as gc;
use crate::kv_image as image;
use crate::kv_image::{Rec, Sect};
use crate::kv_laws as laws;
use crate::kv_lookup as lookup;
use crate::kv_model as model;
use crate::kv_model::{KvState, Node, SecInfo, SECTOR_NOT_COMBINED};
use crate::kv_open as open;
use crate::kv_power as power;
use crate::kv_recover as recover;
use crate::kv_recover::Pending;
use crate::kv_resume as resume;
use crate::kv_torn as torn;
use crate::ring;
use crate::storage::Medium;

verus! {

/// Nothing that is unfinished.
pub open spec fn nothing() -> Pending {
    Pending { del: None, put: None }
}

/// What holds of a database while garbage is collected on a medium that may lose its power.
pub open spec fn going(st: KvState, d: Map<int, Sect>) -> bool {
    &&& image::holds_image(st.m, st.geo, d)
    &&& db::is_sector(st.geo, st.oldest)
    &&& st.gc_request
    &&& gc::unique(st.geo, d)
    &&& gc::at_rest(st.geo, d)
}

/// Whether `d1` with what is unfinished in it, `q1`, is what a power loss left of moving
/// records of the sector at `s` of the image `d`.
pub open spec fn cut(geo: Geo, d: Map<int, Sect>, d1: Map<int, Sect>, q1: Pending, s: int) -> bool {
    &&& recover::pends(geo, d1, q1)
    &&& gc::unique(geo, d1)
    &&& resume::same_alive(geo, d, nothing(), d1, q1)
    &&& forall|x: int| db::is_sector(geo, x) ==> (#[trigger] d1[x]).dirty == d[x].dirty
    &&& q1.del matches Some((b, j)) ==> b == s
}

/// Nothing happened yet.
proof fn lemma_uncut(geo: Geo, d: Map<int, Sect>, s: int)
    requires
        gc::unique(geo, d),
        gc::at_rest(geo, d),
    ensures
        cut(geo, d, d, nothing(), s),
{
    assert forall|x: int, y: int| db::is_sector(geo, x) && 0 <= y < d[x].recs.len() implies ((
    #[trigger] d[x].recs[y]).status == KvStatus::PreDelete <==> nothing().del == Some((x, y))) && (
    d[x].recs[y].status == KvStatus::PreWrite <==> nothing().put == Some((x, y))) by {}
}

/// A move that was carried out.
proof fn lemma_moved_cut(geo: Geo, d: Map<int, Sect>, s: int, i: int, t: int)
    requires
        s != t,
        db::is_sector(geo, s),
        db::is_sector(geo, t),
        gc::live(geo, d, s, i),
        d[s].dirty == SectorDirtyStatus::Gc,
        gc::unique(geo, d),
        gc::at_rest(geo, d),
    ensures
        cut(geo, d, gc::moved(d, s, i, t), nothing(), s),
        gc::same_live(geo, d, gc::moved(d, s, i, t)),
        gc::at_rest(geo, gc::moved(d, s, i, t)),
{
    let d1 = gc::moved(d, s, i, t);
    gc::lemma_moved(geo, d, s, i, t);
    lemma_uncut(geo, d1, s);
    assert forall|name: Seq<u8>, v: Seq<u8>| #[trigger]
        resume::alive(geo, d1, nothing(), name, v) <==> resume::alive(
            geo,
            d,
            nothing(),
            name,
            v,
        ) by {
        assert(gc::has_live(geo, d1, name, v) <==> gc::has_live(geo, d, name, v));
    }
}

/// The image `d` with the `i`th record of the sector at `s` about to be deleted.
pub open spec fn marked(d: Map<int, Sect>, s: int, i: int) -> Map<int, Sect> {
    d.insert(s, change::struck(d[s], i, KvStatus::PreDelete))
}

/// Marking a live record as about to be deleted.
proof fn lemma_marked(geo: Geo, d: Map<int, Sect>, s: int, i: int)
    requires
        db::is_sector(geo, s),
        gc::live(geo, d, s, i),
        d[s].dirty == SectorDirtyStatus::Gc,
        gc::unique(geo, d),
        gc::at_rest(geo, d),
    ensures
        ({
            let dp = marked(d, s, i);
            let r = d[s].recs[i];
            &&& cut(geo, d, dp, (Pending { del: Some((s, i)), put: None }), s)
            &&& forall|v: Seq<u8>| !#[trigger] gc::has_live(geo, dp, r.name, v)
            &&& dp[s].recs[i] == (Rec { status: KvStatus::PreDelete, ..r })
            &&& forall|x: int| (#[trigger] dp[x]).store == d[x].store && (x != s ==> dp[x] == d[x])
        }),
{
    let dp = marked(d, s, i);
    let q = Pending { del: Some((s, i)), put: None };
    let r = d[s].recs[i];
    assert forall|a: int, j: int| #[trigger]
        gc::live(geo, dp, a, j) <==> gc::live(geo, d, a, j) && !(a == s && j == i) by {
        if a == s && j != i && 0 <= j < d[s].recs.len() {
            assert(dp[s].recs[j] == d[s].recs[j]);
        }
    }
    assert forall|a: int, j: int| #[trigger] gc::live(geo, dp, a, j) implies dp[a].recs[j]
        == d[a].recs[j] by {
        if a == s {
            assert(j != i);
        }
    }
    assert forall|v: Seq<u8>| !#[trigger] gc::has_live(geo, dp, r.name, v) by {
        if gc::has_live(geo, dp, r.name, v) {
            let (a, j) = choose|a: int, j: int| gc::live_as(geo, dp, a, j, r.name, v);
            assert(gc::live(geo, dp, a, j));
            assert(gc::live(geo, d, a, j) && gc::live(geo, d, s, i));
        }
    }
    assert(!recover::known(geo, dp, r.name));
    assert forall|name: Seq<u8>, v: Seq<u8>| #[trigger]
        resume::alive(geo, dp, q, name, v) <==> resume::alive(geo, d, nothing(), name, v) by {
        if gc::has_live(geo, dp, name, v) {
            let (a, j) = choose|a: int, j: int| gc::live_as(geo, dp, a, j, name, v);
            assert(gc::live(geo, dp, a, j));
            assert(gc::live_as(geo, d, a, j, name, v));
        }
        if resume::waits(dp, q, name, v) {
            assert(gc::live_as(geo, d, s, i, name, v));
        }
        if gc::has_live(geo, d, name, v) {
            let (a, j) = choose|a: int, j: int| gc::live_as(geo, d, a, j, name, v);
            assert(gc::live(geo, d, a, j));
            if a == s && j == i {
                assert(resume::waits(dp, q, name, v));
            } else {
                assert(gc::live(geo, dp, a, j));
                assert(gc::live_as(geo, dp, a, j, name, v));
            }
        }
    }
    assert forall|a: int, j: int, b: int, k: int|
        #![trigger gc::live(geo, dp, a, j), gc::live(geo, dp, b, k)]
        gc::live(geo, dp, a, j) && gc::live(geo, dp, b, k) && dp[a].recs[j].name
            == dp[b].recs[k].name implies a == b && j == k by {
        assert(gc::live(geo, d, a, j) && gc::live(geo, d, b, k));
    }
    assert forall|x: int, y: int| db::is_sector(geo, x) && 0 <= y < dp[x].recs.len() implies ((
    #[trigger] dp[x].recs[y]).status == KvStatus::PreDelete <==> q.del == Some((x, y))) && (
    dp[x].recs[y].status == KvStatus::PreWrite <==> q.put == Some((x, y))) by {
        let r0 = d[x].recs[y];
        if x == s && y == i {
        } else {
            assert(dp[x].recs[y] == r0);
        }
    }
}

/// One more record behind the records of a sector keeps what is unfinished, and may add to
/// it.
proof fn lemma_appended_pends(geo: Geo, d: Map<int, Sect>, q: Pending, t: int, r: Rec)
    requires
        recover::pends(geo, d, q),
        q.put is None,
        db::is_sector(geo, t),
        r.status != KvStatus::PreDelete,
    ensures
        recover::pends(
            geo,
            d.insert(t, change::appended(d[t], r)),
            Pending {
                put: if r.status == KvStatus::PreWrite {
                    Some((t, d[t].recs.len() as int))
                } else {
                    None
                },
                ..q
            },
        ),
{
    let d1 = d.insert(t, change::appended(d[t], r));
    let q1 = Pending {
        put: if r.status == KvStatus::PreWrite {
            Some((t, d[t].recs.len() as int))
        } else {
            None
        },
        ..q
    };
    assert forall|x: int, y: int| db::is_sector(geo, x) && 0 <= y < d1[x].recs.len() implies ((
    #[trigger] d1[x].recs[y]).status == KvStatus::PreDelete <==> q1.del == Some((x, y))) && (
    d1[x].recs[y].status == KvStatus::PreWrite <==> q1.put == Some((x, y))) by {
        if x == t && y == d[t].recs.len() {
            if q.del is Some {
                let (b, j) = q.del.unwrap();
            }
        } else {
            assert(d1[x].recs[y] == d[x].recs[y]);
        }
    }
    match q.del {
        Some((b, j)) => {
            assert(d1[b].recs[j] == d[b].recs[j]);
        },
        None => {},
    }
}

/// What is left of copying the `i`th record of the sector at `s` to the sector at `t`.
#[verifier::rlimit(40)]
proof fn lemma_copied(geo: Geo, d: Map<int, Sect>, s: int, i: int, t: int, dc: Map<int, Sect>) -> (q1:
    Pending)
    requires
        db::is_sector(geo, s),
        db::is_sector(geo, t),
        s != t,
        gc::live(geo, d, s, i),
        d[s].dirty == SectorDirtyStatus::Gc,
        d[t].dirty == SectorDirtyStatus::False,
        gc::unique(geo, d),
        gc::at_rest(geo, d),
        torn::left_of(marked(d, s, i), t, d[s].recs[i].name, d[s].recs[i].value, dc),
    ensures
        cut(geo, d, dc, q1, s),
        gc::grown(geo, d, dc, s),
{
    lemma_marked(geo, d, s, i);
    let dp = marked(d, s, i);
    let r = d[s].recs[i];
    let q = Pending { del: Some((s, i)), put: None };
    let live = change::live_rec(r.name, r.value);
    assert(dp[t] == d[t]);
    assert forall|x: int| db::is_sector(geo, x) implies (#[trigger] dc[x]).dirty == d[x].dirty by {
        assert(dp[x].dirty == d[x].dirty);
    }
    if dc == dp {
        q
    } else if dc == dp.insert(t, change::appended(dp[t], live)) {
        laws::lemma_added(geo, dp, t, r.name, r.value);
        lemma_appended_pends(geo, dp, q, t, live);
        assert(dc == laws::added(dp, t, r.name, r.value));
        assert(dc[s] == dp[s]);
        assert(gc::has_live(geo, dc, r.name, r.value));
        assert(recover::known(geo, dc, r.name));
        assert forall|name: Seq<u8>, v: Seq<u8>| #[trigger]
            resume::alive(geo, dc, q, name, v) <==> resume::alive(
                geo,
                d,
                nothing(),
                name,
                v,
            ) by {
            assert(resume::alive(geo, dp, q, name, v) <==> resume::alive(
                geo,
                d,
                nothing(),
                name,
                v,
            ));
            assert(!recover::known(geo, dp, r.name));
        }
        q
    } else if d[t].recs.len() > 0 && dc == dp.insert(t, torn::padded_on(dp[t])) {
        power::lemma_pad_live(geo, dp, t);
        assert(recover::pends(geo, dc, q)) by {
            assert forall|x: int, y: int|
                db::is_sector(geo, x) && 0 <= y < dc[x].recs.len() implies ((
            #[trigger] dc[x].recs[y]).status == KvStatus::PreDelete <==> q.del == Some((x, y)))
                && (dc[x].recs[y].status == KvStatus::PreWrite <==> q.put == Some((x, y))) by {
                assert(dc[x].recs[y].status == dp[x].recs[y].status);
            }
        }
        lemma_dead_step(geo, d, dp, q, dc, q);
        q
    } else {
        let x = if d[t].recs.len() == 0 && dc == dp.insert(
            t,
            change::appended(dp[t], torn::blank_rec()),
        ) {
            torn::blank_rec()
        } else {
            choose|x: Rec| #[trigger]
                torn::half(x, model::record_len(r.name, r.value)) && dc == dp.insert(
                    t,
                    change::appended(dp[t], x),
                )
        };
        assert(dc == dp.insert(t, change::appended(dp[t], x)));
        power::lemma_append_dead(geo, dp, t, x);
        lemma_appended_pends(geo, dp, q, t, x);
        let q1 = Pending {
            put: if x.status == KvStatus::PreWrite {
                Some((t, d[t].recs.len() as int))
            } else {
                None
            },
            ..q
        };
        assert(dc[s] == dp[s]);
        lemma_dead_step(geo, d, dp, q, dc, q1);
        q1
    }
}

/// What changes nothing that is live, nor the record that waits, changes nothing that is
/// alive.
proof fn lemma_dead_step(
    geo: Geo,
    d: Map<int, Sect>,
    dp: Map<int, Sect>,
    q: Pending,
    dc: Map<int, Sect>,
    q1: Pending,
)
    requires
        resume::same_alive(geo, d, nothing(), dp, q),
        gc::same_live(geo, dp, dc),
        q1.del == q.del,
        q.del matches Some((b, j)) ==> dc[b].recs[j].name == dp[b].recs[j].name
            && dc[b].recs[j].value == dp[b].recs[j].value,
    ensures
        resume::same_alive(geo, d, nothing(), dc, q1),
{
    resume::lemma_alive_same(geo, dp, q, dc, q1);
    resume::lemma_alive_trans(geo, d, nothing(), dp, q, dc, q1);
}

/// Marking a record of a sector that is being collected.
proof fn lemma_strike(m: Medium, geo: Geo, d: Map<int, Sect>, s: int, i: int, complete: bool)
    requires
        image::holds_image(m, geo, d),
        m.powered(),
        db::is_sector(geo, s),
        0 <= i < d[s].recs.len(),
        d[s].recs[i].sound,
        d[s].dirty == SectorDirtyStatus::Gc,
        def::kv_index_of(d[s].recs[i].status) <= def::kv_index_of(change::gone(complete)),
    ensures
        ({
            let (m1, r) = model::delete_at(m, geo, image::place(s, d[s].recs, i), complete);
            &&& r is Ok
            &&& m1.budget is None <==> m.budget is None
            &&& image::holds_image(
                m1,
                geo,
                d.insert(s, change::struck(d[s], i, change::gone(complete))),
            )
        }),
{
    reveal(model::delete_at);
    let a = image::place(s, d[s].recs, i);
    let k = change::gone(complete);
    let d1 = d.insert(s, change::with_status(d[s], i, k));
    change::lemma_put_rec_status(m, geo, d, s, i, k, complete);
    let m1 = flash::put_status(m, a, def::kv_index_of(k), complete);
    assert(image::sector_at(m.bytes, geo, s, d[s]));
    image::lemma_place(m.bytes, geo, s, d[s], i);
    change::lemma_dirty_place(geo, s, a);
    change::lemma_dirty_read(m1, geo, d1, s);
    assert(d1 =~= d.insert(s, change::struck(d[s], i, k)));
}

/// Moving a live record of a sector that is being collected, on a medium that may lose its
/// power.
#[verifier::rlimit(80)]
#[verifier::spinoff_prover]
proof fn lemma_move(st: KvState, d: Map<int, Sect>, s: int, i: int, n: Node, need: int) -> (out: (
    Map<int, Sect>,
    Pending,
))
    requires
        going(st, d),
        db::is_sector(st.geo, s),
        d[s].dirty == SectorDirtyStatus::Gc,
        gc::live(st.geo, d, s, i),
        lookup::shown(d, s, i, n),
        image::size(d[s].recs[i]) <= need,
        gc::reserve(st.geo, d, s, need),
    ensures
        ({
            let st1 = model::move_node(st, n).0;
            let (d1, q1) = out;
            &&& st1 == (KvState { m: st1.m, ..st })
            &&& st1.m.budget is None <==> st.m.budget is None
            &&& image::holds_image(st1.m, st.geo, d1)
            &&& cut(st.geo, d, d1, q1, s)
            &&& gc::grown(st.geo, d, d1, s)
            &&& st1.m.powered() ==> {
                &&& going(st1, d1)
                &&& q1 == nothing()
                &&& d1[s].recs == d[s].recs.update(
                    i,
                    Rec { status: KvStatus::Deleted, ..d[s].recs[i] },
                )
                &&& gc::reserve(st.geo, d1, s, need - image::size(d[s].recs[i]))
            }
        }),
{
    reveal(model::move_node);
    let geo = st.geo;
    let rec = d[s].recs[i];
    let len = image::body(rec);
    assert(image::sector_at(st.m.bytes, geo, s, d[s]));
    image::lemma_place(st.m.bytes, geo, s, d[s], i);
    assert(gc::live_as(geo, d, s, i, rec.name, rec.value));
    assert(gc::has_live(geo, d, rec.name, rec.value));
    lemma_uncut(geo, d, s);
    if !st.m.powered() {
        dead::lemma_move(st, n);
        (d, nothing())
    } else {
        lemma_strike(st.m, geo, d, s, i, false);
        lemma_marked(geo, d, s, i);
        let dp = marked(d, s, i);
        let q = Pending { del: Some((s, i)), put: None };
        let m1 = model::delete_at(st.m, geo, n.at, false).0;
        let sta = KvState { m: m1, ..st };
        gc::lemma_struck_place(s, d[s], i, KvStatus::PreDelete, i);
        lookup::lemma_find_room(sta, dp, len);
        let (stb, slot) = model::find_room(sta, len);
        if !m1.powered() {
            dead::lemma_find_room(sta, len);
            dead::lemma_delete(m1, geo, n.at, true);
            match slot {
                Some(info) => {
                    dead::lemma_move_body(m1, n, info);
                },
                None => {},
            }
            (dp, q)
        } else {
            let t0 = choose|t: int| gc::reserve_in(geo, d, s, need, t);
            assert(gc::reserve_in(geo, d, s, need, t0));
            assert(dp[t0] == d[t0]);
            assert(lookup::can_take(geo, dp, t0, d[t0].store, len, true));
            assert(slot is Some) by {
                if d[t0].store == SectorStoreStatus::Using {
                    assert(lookup::can_take(geo, dp, t0, SectorStoreStatus::Using, len, true));
                } else {
                    assert(lookup::can_take(geo, dp, t0, SectorStoreStatus::Empty, len, true));
                }
            }
            let info = slot.unwrap();
            let t = choose|a: int| #[trigger] lookup::slot_in(geo, dp, a, len, true, info);
            assert(lookup::slot_in(geo, dp, t, len, true, info));
            assert(t != s) by {
                assert(dp[s].dirty == SectorDirtyStatus::Gc);
            }
            assert(dp[t] == d[t]);
            let m2 = stb.m;
            let (m3, r3) = model::move_body(m2, n, info);
            let dc = torn::lemma_move_cut(m2, geo, dp, s, i, t, info, n);
            let q1 = lemma_copied(geo, d, s, i, t, dc);
            if !m3.powered() {
                dead::lemma_delete(m3, geo, n.at, true);
                (dc, q1)
            } else {
                assert(r3 is Ok);
                assert(dc[s] == dp[s]);
                lemma_strike(m3, geo, dc, s, i, true);
                let d1 = dc.insert(s, change::struck(dc[s], i, KvStatus::Deleted));
                assert(d1 =~= gc::moved(d, s, i, t)) by {
                    assert(d1[s].recs =~= change::struck(d[s], i, KvStatus::Deleted).recs);
                }
                lemma_moved_cut(geo, d, s, i, t);
                assert(gc::reserve_in(geo, d1, s, need - image::size(rec), t0)) by {
                    if t == t0 {
                        gc::lemma_push_span(d[t].recs, change::live_rec(rec.name, rec.value));
                    } else {
                        assert(d1[t0] == d[t0]);
                    }
                }
                (d1, nothing())
            }
        }
    }
}

/// Two steps in a row, of which the first was carried out.
proof fn lemma_cut_trans(
    geo: Geo,
    d: Map<int, Sect>,
    d1: Map<int, Sect>,
    d2: Map<int, Sect>,
    q2: Pending,
    s: int,
)
    requires
        cut(geo, d, d1, nothing(), s),
        cut(geo, d1, d2, q2, s),
    ensures
        cut(geo, d, d2, q2, s),
{
    resume::lemma_alive_trans(geo, d, nothing(), d1, nothing(), d2, q2);
    assert forall|x: int| db::is_sector(geo, x) implies (#[trigger] d2[x]).dirty == d[x].dirty by {
        assert(d1[x].dirty == d[x].dirty);
    }
}

/// Moving one record of a sector that is being collected, if it is live, on a medium that
/// may lose its power.
#[verifier::rlimit(40)]
proof fn lemma_turn(st: KvState, d: Map<int, Sect>, s: int, i: int, n1: Node) -> (out: (
    Map<int, Sect>,
    Pending,
))
    requires
        going(st, d),
        db::is_sector(st.geo, s),
        d[s].dirty == SectorDirtyStatus::Gc,
        0 <= i < d[s].recs.len(),
        d[s].recs[i].sound ==> lookup::shown(d, s, i, n1),
        !d[s].recs[i].sound ==> !n1.crc_ok,
        gc::reserve(st.geo, d, s, image::span(d[s].recs) - image::reach(d[s].recs, i)),
    ensures
        ({
            let geo = st.geo;
            let st2 = if n1.crc_ok && (n1.status == KvStatus::Write || n1.status
                == KvStatus::PreDelete) {
                model::move_node(st, n1).0
            } else {
                st
            };
            let (d2, q2) = out;
            &&& st2 == (KvState { m: st2.m, ..st })
            &&& st2.m.budget is None <==> st.m.budget is None
            &&& image::holds_image(st2.m, geo, d2)
            &&& cut(geo, d, d2, q2, s)
            &&& gc::grown(geo, d, d2, s)
            &&& st2.m.powered() ==> {
                &&& going(st2, d2)
                &&& q2 == nothing()
                &&& resume::past(geo, d, d2, s, i)
                &&& gc::reserve(
                    geo,
                    d2,
                    s,
                    image::span(d[s].recs) - image::reach(d[s].recs, i) - image::size(
                        d[s].recs[i],
                    ),
                )
            }
        }),
{
    let geo = st.geo;
    let recs = d[s].recs;
    let need = image::span(recs) - image::reach(recs, i);
    let len = image::size(recs[i]);
    assert(image::sector_at(st.m.bytes, geo, s, d[s]));
    image::lemma_open_sector(st.m.bytes, geo, s, d[s]);
    image::lemma_reach(recs, i, recs.len() as int);
    assert(recs[i].status != KvStatus::PreDelete);
    if gc::live(geo, d, s, i) {
        lemma_move(st, d, s, i, n1, need)
    } else {
        lemma_uncut(geo, d, s);
        gc::lemma_reserve_less(geo, d, s, need, need - len);
        (d, nothing())
    }
}

/// One step of collecting a sector on a medium that may lose its power.
#[verifier::rlimit(40)]
proof fn lemma_step(st: KvState, d: Map<int, Sect>, s: int, info: SecInfo, i: int, n: Node) -> (out:
    (Map<int, Sect>, Pending))
    requires
        going(st, d),
        db::is_sector(st.geo, s),
        info.at == s,
        info.store == d[s].store,
        d[s].dirty == SectorDirtyStatus::Gc,
        0 <= i < d[s].recs.len(),
        n.at == image::place(s, d[s].recs, i),
        n.name.len() == KV_NAME_MAX,
        gc::reserve(st.geo, d, s, image::span(d[s].recs) - image::reach(d[s].recs, i)),
    ensures
        ({
            let geo = st.geo;
            let n1 = model::read_node(st.m, geo, n);
            let st1 = KvState { m: model::after_read(st.m, geo, n.at), ..st };
            let st2 = if n1.crc_ok && (n1.status == KvStatus::Write || n1.status
                == KvStatus::PreDelete) {
                model::move_node(st1, n1).0
            } else {
                st1
            };
            let (d2, q2) = out;
            &&& st2 == (KvState { m: st2.m, ..st })
            &&& st2.m.budget is None <==> st.m.budget is None
            &&& image::holds_image(st2.m, geo, d2)
            &&& cut(geo, d, d2, q2, s)
            &&& gc::grown(geo, d, d2, s)
            &&& st2.m.powered() ==> {
                &&& going(st2, d2)
                &&& q2 == nothing()
                &&& resume::past(geo, d, d2, s, i)
                &&& gc::reserve(
                    geo,
                    d2,
                    s,
                    image::span(d2[s].recs) - image::reach(d2[s].recs, i + 1),
                )
                &&& model::next_node(st2.m.bytes, geo, info, n1) == (if i + 1
                    < d[s].recs.len() {
                    Some(image::place(s, d2[s].recs, i + 1))
                } else {
                    None
                })
                &&& n.at < image::place(s, d2[s].recs, i + 1) < s + geo.sec
                &&& n1.name.len() == KV_NAME_MAX
            }
        }),
{
    let geo = st.geo;
    let recs = d[s].recs;
    image::lemma_step(st.m, geo, d, s, info, i, n);
    assert(image::sector_at(st.m.bytes, geo, s, d[s]));
    image::lemma_place(st.m.bytes, geo, s, d[s], i);
    let n1 = model::read_node(st.m, geo, n);
    let sta = KvState { m: model::after_read(st.m, geo, n.at), ..st };
    let (d2, q2) = lemma_turn(sta, d, s, i, n1);
    let stb = if n1.crc_ok && (n1.status == KvStatus::Write || n1.status == KvStatus::PreDelete) {
        model::move_node(sta, n1).0
    } else {
        sta
    };
    if stb.m.powered() {
        assert(image::sector_at(stb.m.bytes, geo, s, d2[s]));
        gc::lemma_onward(stb.m.bytes, geo, recs, s, d2[s], info, i, n1);
    }
    (d2, q2)
}

/// Moving the records of a sector, from the `i`th record on, on a medium that may lose its
/// power.
#[verifier::rlimit(40)]
proof fn lemma_evacuate(st: KvState, d: Map<int, Sect>, s: int, info: SecInfo, i: int, n: Node) -> (
    out: (Map<int, Sect>, Pending))
    requires
        going(st, d),
        db::is_sector(st.geo, s),
        info.at == s,
        info.store == d[s].store,
        d[s].dirty == SectorDirtyStatus::Gc,
        0 <= i < d[s].recs.len(),
        n.at == image::place(s, d[s].recs, i),
        n.name.len() == KV_NAME_MAX,
        gc::reserve(st.geo, d, s, image::span(d[s].recs) - image::reach(d[s].recs, i)),
        forall|k: int| 0 <= k < i ==> !#[trigger] resume::movable(d[s].recs[k]),
    ensures
        ({
            let st1 = model::evacuate(st, info, n);
            let (d1, q1) = out;
            &&& st1 == (KvState { m: st1.m, ..st })
            &&& st1.m.budget is None <==> st.m.budget is None
            &&& image::holds_image(st1.m, st.geo, d1)
            &&& cut(st.geo, d, d1, q1, s)
            &&& gc::grown(st.geo, d, d1, s)
            &&& st1.m.powered() ==> {
                &&& going(st1, d1)
                &&& q1 == nothing()
                &&& forall|k: int|
                    0 <= k < d1[s].recs.len() ==> !#[trigger] resume::movable(d1[s].recs[k])
            }
        }),
    decreases d[s].recs.len() - i,
{
    let geo = st.geo;
    let (d2, q2) = lemma_step(st, d, s, info, i, n);
    let n1 = model::read_node(st.m, geo, n);
    let st1 = KvState { m: model::after_read(st.m, geo, n.at), ..st };
    let st2 = if n1.crc_ok && (n1.status == KvStatus::Write || n1.status == KvStatus::PreDelete) {
        model::move_node(st1, n1).0
    } else {
        st1
    };
    if !st2.m.powered() {
        match model::next_node(st2.m.bytes, geo, info, n1) {
            None => {},
            Some(a) => {
                dead::lemma_evacuate(st2, info, Node { at: a, ..n1 });
            },
        }
        (d2, q2)
    } else {
        assert forall|k: int| 0 <= k < i + 1 implies !#[trigger] resume::movable(
            d2[s].recs[k],
        ) by {
            if k < i {
                assert(d2[s].recs[k] == d[s].recs[k]);
            }
        }
        if i + 1 < d[s].recs.len() {
            let n2 = Node { at: image::place(s, d2[s].recs, i + 1), ..n1 };
            let (d3, q3) = lemma_evacuate(st2, d2, s, info, i + 1, n2);
            lemma_cut_trans(geo, d, d2, d3, q3, s);
            gc::lemma_grown_trans(geo, d, d2, d3, s);
            (d3, q3)
        } else {
            (d2, q2)
        }
    }
}

// ------------------------------------------------------------------ collecting sectors

/// What holds of a database before and after a sector is collected, on a medium that may
/// lose its power.
pub open spec fn ready(st: KvState, d: Map<int, Sect>) -> bool {
    &&& going(st, d)
    &&& lookup::has_empty(st.geo, d)
}

/// Whether the medium `m` holds the image `d1` of a database, but for a sector that was
/// erased and has no header yet, in which nothing is unfinished, and which has the same
/// live records as `d`.
pub open spec fn whole(m: Medium, geo: Geo, d: Map<int, Sect>, d1: Map<int, Sect>) -> bool {
    &&& model::geo_ok(geo)
    &&& geo.max <= m.bytes.len() <= 0xFFFF_FFFF
    &&& m.clears
    &&& db::whole_sectors(geo, m.erases)
    &&& m.flushed.len() == m.bytes.len()
    &&& open::patched(m, geo, d1)
    &&& exists|a: int| db::is_sector(geo, a) && (#[trigger] model::sector_head(m, a)).check_ok
    &&& gc::unique(geo, d1)
    &&& gc::at_rest(geo, d1)
    &&& gc::uncollected(geo, d) ==> gc::uncollected(geo, d1)
    &&& lookup::has_empty(geo, d1)
    &&& gc::same_live(geo, d, d1)
}

/// Whether the medium `m` holds the image `d1` of a database in which collecting the sector
/// at `s` was interrupted, `q1` is unfinished, and the same is alive as in `d`.
pub open spec fn broken(
    m: Medium,
    geo: Geo,
    d: Map<int, Sect>,
    d1: Map<int, Sect>,
    q1: Pending,
    s: int,
) -> bool {
    &&& image::holds_image(m, geo, d1)
    &&& db::is_sector(geo, s)
    &&& d1[s].dirty == SectorDirtyStatus::Gc
    &&& recover::pends(geo, d1, q1)
    &&& gc::unique(geo, d1)
    &&& resume::same_alive(geo, d, nothing(), d1, q1)
    &&& q1.del matches Some((b, j)) ==> b == s
}

/// An image in which nothing is unfinished is whole.
proof fn lemma_whole(st: KvState, d: Map<int, Sect>, d1: Map<int, Sect>)
    requires
        ready(st, d1),
        gc::same_live(st.geo, d, d1),
        gc::uncollected(st.geo, d) ==> gc::uncollected(st.geo, d1),
    ensures
        whole(st.m, st.geo, d, d1),
{
    image::lemma_head(st.m, st.geo, d1, st.oldest);
    assert(open::patched(st.m, st.geo, d1));
}

/// The images of one thing after another.
proof fn lemma_going(st: KvState, d: Map<int, Sect>, m1: Medium, d1: Map<int, Sect>)
    requires
        going(st, d),
        image::holds_image(m1, st.geo, d1),
        gc::same_live(st.geo, d, d1),
        gc::unique(st.geo, d1),
        gc::at_rest(st.geo, d1),
    ensures
        going(KvState { m: m1, ..st }, d1),
{
}

/// Marking a dirty sector as being collected: there is a reserve for its records.
proof fn lemma_begin(st: KvState, d: Map<int, Sect>, s: int) -> (da: Map<int, Sect>)
    requires
        ready(st, d),
        st.m.powered(),
        db::is_sector(st.geo, s),
        resume::dirty(d[s]),
    ensures
        da == d.insert(s, (Sect { dirty: SectorDirtyStatus::Gc, ..d[s] })),
        going(KvState { m: flash::put_status(st.m, s + 1, 3, true), ..st }, da),
        gc::same_live(st.geo, d, da),
        d[s].recs.len() > 0,
        gc::reserve(st.geo, da, s, image::span(d[s].recs)),
{
    let geo = st.geo;
    assert(image::sector_at(st.m.bytes, geo, s, d[s]));
    image::lemma_open_sector(st.m.bytes, geo, s, d[s]);
    change::lemma_put_dirty(st.m, geo, d, s, SectorDirtyStatus::Gc);
    let da = d.insert(s, Sect { dirty: SectorDirtyStatus::Gc, ..d[s] });
    gc::lemma_same_recs(geo, d, da);
    lemma_going(st, d, flash::put_status(st.m, s + 1, 3, true), da);
    let e = choose|a: int|
        db::is_sector(geo, a) && (#[trigger] d[a]).store == SectorStoreStatus::Empty;
    assert(d[e].store == SectorStoreStatus::Empty);
    assert(image::sector_at(st.m.bytes, geo, e, d[e]));
    image::lemma_open_sector(st.m.bytes, geo, e, d[e]);
    assert(e != s);
    assert(da[e] == d[e]);
    assert(image::span(d[e].recs) == 0);
    image::lemma_place(st.m.bytes, geo, s, d[s], 0);
    assert(gc::reserve_in(geo, da, s, image::span(d[s].recs), e));
    da
}

/// Formatting a sector on a medium with power: it is done, or the power goes away between
/// erasing the sector and writing its header.
proof fn lemma_format(m: Medium, geo: Geo, d: Map<int, Sect>, s: int)
    requires
        image::holds_image(m, geo, d),
        m.powered(),
        db::is_sector(geo, s),
    ensures
        ({
            let m1 = model::format(m, geo, s, SECTOR_NOT_COMBINED as int).0;
            let d1 = d.insert(s, change::fresh());
            &&& m1.bytes.len() == m.bytes.len()
            &&& m1.clears
            &&& db::whole_sectors(geo, m1.erases)
            &&& m1.flushed.len() == m1.bytes.len()
            &&& open::patched(m1, geo, d1)
            &&& m1.powered() ==> image::holds_image(m1, geo, d1)
        }),
{
    let mm = Medium { budget: None, ..m };
    let d1 = d.insert(s, change::fresh());
    change::lemma_format(mm, geo, d, s);
    let full = model::format(mm, geo, s, SECTOR_NOT_COMBINED as int).0;
    let m1 = model::format(m, geo, s, SECTOR_NOT_COMBINED as int).0;
    let me = m.erase(s, geo.sec);
    assert(m.accepts(s, geo.sec));
    db::lemma_sector_erased(geo, m.erases, s);
    if me.powered() {
        assert(m1.bytes == full.bytes);
        assert(image::holds_image(m1, geo, d1));
    } else {
        assert(m1.bytes == me.bytes);
        assert forall|a: int| db::is_sector(geo, a) implies image::sector_at(
            m1.bytes,
            geo,
            a,
            #[trigger] d1[a],
        ) || (!model::sector_head(m1, a).check_ok && d1[a] == change::fresh()) by {
            if a == s {
                reveal(model::sector_head);
                let hdr = m1.fetch(s, flash::zeros(16));
                assert(hdr[4] == 0xFF);
                assert(hdr[5] == 0xFF && hdr[6] == 0xFF && hdr[7] == 0xFF);
            } else {
                db::lemma_apart(geo, a, s);
                assert(image::sector_at(m.bytes, geo, a, d[a]));
                image::lemma_open_sector(m.bytes, geo, a, d[a]);
                image::lemma_sector_frame(m.bytes, m1.bytes, geo, a, d[a]);
            }
        }
    }
}

/// A database has another sector.
proof fn lemma_other(geo: Geo, s: int) -> (x: int)
    requires
        model::geo_ok(geo),
        db::is_sector(geo, s),
    ensures
        db::is_sector(geo, x),
        x != s,
{
    db::lemma_geo(geo);
    ring::lemma_first(geo, s);
    ring::lemma_walk(geo, s, 0);
    ring::lemma_walk(geo, s, geo.sec);
    ring::at(geo, s, geo.sec)
}

/// Collecting a sector on a medium that may lose its power.
#[verifier::rlimit(80)]
#[verifier::spinoff_prover]
proof fn lemma_collect(st: KvState, d: Map<int, Sect>, s: int, info: SecInfo, free: int, last: int) -> (
    out: (Map<int, Sect>, Pending, Option<int>))
    requires
        ready(st, d),
        db::is_sector(st.geo, s),
        image::heads(info, s, d[s]),
        db::is_sector(st.geo, last),
    ensures
        ({
            let (st1, last1, stop) = model::collect_sector(st, info, free, last);
            let (d1, q1, b) = out;
            &&& st1 == (KvState { m: st1.m, oldest: st1.oldest, ..st })
            &&& st1.m.budget is None <==> st.m.budget is None
            &&& db::is_sector(st.geo, last1)
            &&& b matches Some(x) ==> !st1.m.powered() && broken(st1.m, st.geo, d, d1, q1, x)
            &&& b is None ==> whole(st1.m, st.geo, d, d1) && (st1.m.powered() ==> ready(st1, d1))
        }),
{
    let geo = st.geo;
    db::lemma_geo(geo);
    if !resume::dirty(d[s]) {
        reveal(model::collect_sector);
        lemma_whole(st, d, d);
        (d, nothing(), None)
    } else if !st.m.powered() {
        dead::lemma_collect(st, info, free, last);
        reveal(model::collect_sector);
        lemma_whole(st, d, d);
        (d, nothing(), None)
    } else {
        reveal(model::collect_sector);
        let da = lemma_begin(st, d, s);
        let sta = KvState { m: flash::put_status(st.m, s + 1, 3, true), ..st };
        let n0 = Node { at: s + 16, ..model::blank_node() };
        assert(image::reach(d[s].recs, 0) == 0);
        assert(image::place(s, da[s].recs, 0) == s + 16);
        let (db1, q1) = lemma_evacuate(sta, da, s, info, 0, n0);
        let st2 = model::evacuate(sta, info, n0);
        let m3 = model::format(st2.m, geo, s, SECTOR_NOT_COMBINED as int).0;
        model::lemma_next_sector(geo, info, 0);
        open::lemma_alive_live(geo, d, da);
        resume::lemma_alive_trans(geo, d, nothing(), da, nothing(), db1, q1);
        if !st2.m.powered() {
            dead::lemma_format(st2.m, geo, s, SECTOR_NOT_COMBINED as int);
            dead::lemma_full(st2.m, geo, last);
            assert(db1[s].dirty == da[s].dirty);
            (db1, q1, Some(s))
        } else {
            let d1 = db1.insert(s, change::fresh());
            lemma_format(st2.m, geo, db1, s);
            assert forall|j: int| !#[trigger] gc::live(geo, db1, s, j) by {
                if 0 <= j < db1[s].recs.len() {
                    assert(!resume::movable(db1[s].recs[j]));
                }
            }
            gc::lemma_emptied(geo, db1, s);
            open::lemma_alive_live(geo, d, db1);
            gc::lemma_same_live_trans(geo, d, db1, d1);
            if gc::uncollected(geo, d) {
                assert forall|a: int| db::is_sector(geo, a) implies (#[trigger] d1[a]).dirty
                    != SectorDirtyStatus::Gc by {
                    if a != s {
                        assert(db1[a].dirty == da[a].dirty);
                        assert(da[a] == d[a]);
                    }
                }
            }
            assert(lookup::has_empty(geo, d1)) by {
                assert(d1[s].store == SectorStoreStatus::Empty);
            }
            let m4 = model::sector_full(m3, geo, last).0;
            if !m3.powered() {
                dead::lemma_full(m3, geo, last);
                let x = lemma_other(geo, s);
                assert(d1[x] == db1[x]);
                assert(model::sector_head(m3, x).check_ok) by {
                    db::lemma_apart(geo, x, s);
                    assert(image::sector_at(st2.m.bytes, geo, x, db1[x]));
                    image::lemma_head(st2.m, geo, db1, x);
                    lemma_other_head(st2.m, geo, db1, s, x);
                }
            } else {
                lookup::lemma_full(m3, geo, d1, last);
                lemma_going(st2, db1, m4, d1);
                let st1 = KvState {
                    m: m4,
                    oldest: model::next_sector(geo, info, 0).unwrap(),
                    ..st2
                };
                assert(ready(st1, d1));
                lemma_whole(st1, d, d1);
            }
            (d1, nothing(), None)
        }
    }
}

/// Formatting a sector leaves the headers of the others alone.
proof fn lemma_other_head(m: Medium, geo: Geo, d: Map<int, Sect>, s: int, x: int)
    requires
        image::holds_image(m, geo, d),
        m.powered(),
        db::is_sector(geo, s),
        db::is_sector(geo, x),
        x != s,
    ensures
        ({
            let m1 = model::format(m, geo, s, SECTOR_NOT_COMBINED as int).0;
            model::sector_head(m1, x).check_ok
        }),
{
    let m1 = model::format(m, geo, s, SECTOR_NOT_COMBINED as int).0;
    db::lemma_apart(geo, x, s);
    db::lemma_geo(geo);
    image::lemma_head(m, geo, d, x);
    assert(image::same_on(m.bytes, m1.bytes, x, x + geo.sec));
    open::lemma_head_frame(m, m1, geo, x);
}

/// What comes behind a sector that was collected, on a whole image.
proof fn lemma_whole_trans(m: Medium, geo: Geo, d: Map<int, Sect>, d1: Map<int, Sect>, d2: Map<int, Sect>)
    requires
        gc::same_live(geo, d, d1),
        gc::uncollected(geo, d) ==> gc::uncollected(geo, d1),
        whole(m, geo, d1, d2),
    ensures
        whole(m, geo, d, d2),
{
    gc::lemma_same_live_trans(geo, d, d1, d2);
}

/// What comes behind a sector that was collected, where collecting was interrupted.
proof fn lemma_broken_trans(
    m: Medium,
    geo: Geo,
    d: Map<int, Sect>,
    d1: Map<int, Sect>,
    d2: Map<int, Sect>,
    q2: Pending,
    s: int,
)
    requires
        gc::same_live(geo, d, d1),
        broken(m, geo, d1, d2, q2, s),
    ensures
        broken(m, geo, d, d2, q2, s),
{
    open::lemma_alive_live(geo, d, d1);
    resume::lemma_alive_trans(geo, d, nothing(), d1, nothing(), d2, q2);
}

/// Collecting the dirty sectors of a walk on a medium that may lose its power.
proof fn lemma_collect_from(
    st: KvState,
    d: Map<int, Sect>,
    o: int,
    t: int,
    free: int,
    last: int,
) -> (out: (Map<int, Sect>, Pending, Option<int>))
    requires
        ready(st, d),
        ring::on_walk(st.geo, o, t),
        db::is_sector(st.geo, last),
    ensures
        ({
            let st1 = model::collect_from(st, free, last, ring::at(st.geo, o, t), t);
            let (d1, q1, b) = out;
            &&& st1 == (KvState { m: st1.m, oldest: st1.oldest, ..st })
            &&& st1.m.budget is None <==> st.m.budget is None
            &&& b matches Some(x) ==> !st1.m.powered() && broken(st1.m, st.geo, d, d1, q1, x)
            &&& b is None ==> whole(st1.m, st.geo, d, d1) && (st1.m.powered() ==> ready(st1, d1))
        }),
    decreases st.geo.max - t,
{
    let geo = st.geo;
    let at = ring::at(geo, o, t);
    ring::lemma_walk(geo, o, t);
    image::lemma_head(st.m, geo, d, at);
    let s = model::sector_head(st.m, at);
    let (d1, q1, b) = lemma_collect(st, d, at, s, free, last);
    let (st1, last1, stop) = model::collect_sector(st, s, free, last);
    lookup::lemma_next(geo, o, t, s);
    if !stop && t + geo.sec < geo.max {
        let a = ring::at(geo, o, t + geo.sec);
        if !st1.m.powered() {
            dead::lemma_collect_from(st1, free, last1, a, t + geo.sec);
            (d1, q1, b)
        } else {
            let (d2, q2, b2) = lemma_collect_from(st1, d1, o, t + geo.sec, free, last1);
            let st2 = model::collect_from(st1, free, last1, a, t + geo.sec);
            match b2 {
                Some(x) => {
                    lemma_broken_trans(st2.m, geo, d, d1, d2, q2, x);
                },
                None => {
                    lemma_whole_trans(st2.m, geo, d, d1, d2);
                },
            }
            (d2, q2, b2)
        }
    } else {
        (d1, q1, b)
    }
}

/// Garbage collection on a medium that may lose its power.
proof fn lemma_gc(st: KvState, d: Map<int, Sect>, free: int) -> (out: (
    Map<int, Sect>,
    Pending,
    Option<int>,
))
    requires
        ready(st, d),
    ensures
        ({
            let st1 = model::gc(st, free);
            let (d1, q1, b) = out;
            &&& st1 == (KvState { m: st1.m, oldest: st1.oldest, gc_request: false, ..st })
            &&& st1.m.budget is None <==> st.m.budget is None
            &&& b matches Some(x) ==> !st1.m.powered() && broken(st1.m, st.geo, d, d1, q1, x)
            &&& b is None ==> whole(st1.m, st.geo, d, d1) && (st1.m.powered() ==> ready(
                KvState { gc_request: true, ..st1 },
                d1,
            ))
        }),
{
    reveal(model::gc);
    let geo = st.geo;
    ring::lemma_first(geo, st.oldest);
    lookup::lemma_empties(st.m, geo, d, st.oldest, 0, 0, 0);
    let (n, last) = model::empty_sectors(st.m, geo, st.oldest, 0, 0, 0);
    if n <= model::GC_EMPTY_SEC_THRESHOLD {
        let (d1, q1, b) = lemma_collect_from(st, d, st.oldest, 0, free, last);
        let st1 = model::collect_from(st, free, last, st.oldest, 0);
        assert(KvState { gc_request: true, ..model::gc(st, free) } == st1);
        (d1, q1, b)
    } else {
        assert(KvState { gc_request: true, ..model::gc(st, free) } == st);
        lemma_whole(st, d, d);
        (d, nothing(), None)
    }
}

// ------------------------------------------------------------------------------- laws

/// The database that collects garbage to make room for a value of `size` bytes, on a medium
/// that loses its power after `n` more operations.
pub open spec fn short_of_room(st: KvState, size: int, n: nat) -> KvState {
    model::find_room(power::failing(st, n), size).0
}

/// Whether no room for a value of `size` bytes is found, and garbage is collected.
pub open spec fn collects(st: KvState, size: int, n: nat) -> bool {
    model::find_room(power::failing(st, n), size).1 is None && short_of_room(st, size, n).gc_request
}

/// Whether opening a database on the medium `m` finishes what a power loss left of collecting
/// garbage: some sector is empty, or every record of the first dirty sector that is to be moved
/// finds room elsewhere. A record that does not is lost when its sector is formatted, unless
/// another one took its place.
pub open spec fn can_finish(m: Medium, geo: Geo, defaults: Seq<(Seq<u8>, Seq<u8>)>) -> bool {
    let st = resume::opening(m, geo, defaults, false);
    let m1 = model::check_headers(m, geo, false, st.oldest, 0, 0).0;
    ||| exists|a: int|
        db::is_sector(geo, a) && (#[trigger] model::sector_head(m1, a)).store
            == SectorStoreStatus::Empty
    ||| resume::first_moves_out(KvState { m: m1, gc_request: true, ..st }, st.oldest, 0)
}

/// Databases with the same live records read the same.
proof fn lemma_same_lookup(
    st: KvState,
    d: Map<int, Sect>,
    st1: KvState,
    d1: Map<int, Sect>,
    k: Seq<u8>,
)
    requires
        image::holds_image(st.m, st.geo, d),
        db::is_sector(st.geo, st.oldest),
        gc::unique(st.geo, d),
        st1.geo == st.geo,
        image::holds_image(st1.m, st.geo, d1),
        db::is_sector(st.geo, st1.oldest),
        gc::unique(st.geo, d1),
        gc::same_live(st.geo, d, d1),
    ensures
        model::lookup(st1, k) == model::lookup(st, k),
{
    laws::lemma_same_lookup(st, d, st1, d1, k);
}

/// What is left of an image does not depend on the power.
proof fn lemma_powered_again(m: Medium, geo: Geo, d: Map<int, Sect>, d1: Map<int, Sect>)
    requires
        whole(m, geo, d, d1),
    ensures
        whole(power::powered_again(m), geo, d, d1),
{
    let m2 = power::powered_again(m);
    assert forall|a: int| db::is_sector(geo, a) implies #[trigger] model::sector_head(m2, a)
        == model::sector_head(m, a) by {
        open::lemma_head_frame(m, m2, geo, a);
    }
    assert forall|a: int| db::is_sector(geo, a) implies image::sector_at(
        m2.bytes,
        geo,
        a,
        #[trigger] d1[a],
    ) || (!model::sector_head(m2, a).check_ok && d1[a] == change::fresh()) by {
        assert(model::sector_head(m2, a) == model::sector_head(m, a));
    }
    let x = choose|a: int| db::is_sector(geo, a) && (#[trigger] model::sector_head(m, a)).check_ok;
    assert(model::sector_head(m2, x).check_ok);
}

/// Garbage is collected to make room, and then or before the power goes away: the medium
/// stays as collecting leaves it.
proof fn lemma_lost(st: KvState, key: Seq<u8>, value: Seq<u8>, n: nat)
    requires
        collects(st, model::record_len(key, value), n),
    ensures
        ({
            let size = model::record_len(key, value);
            let g = model::gc(short_of_room(st, size, n), size);
            !g.m.powered() ==> model::set_value(power::failing(st, n), key, value).0.m == g.m
        }),
{
    reveal(model::new_room);
    let size = model::record_len(key, value);
    let g = model::gc(short_of_room(st, size, n), size);
    if !g.m.powered() {
        dead::lemma_find_room(g, size);
        let (st2, s2) = model::find_room(g, size);
        match s2 {
            Some(s) => {
                dead::lemma_put_in(st2, s, key, value);
            },
            None => {},
        }
    }
}

/// What a database that is short of room is before it collects garbage.
proof fn lemma_short(st: KvState, d: Map<int, Sect>, size: int, n: nat)
    requires
        laws::fair(st, d),
        collects(st, size, n),
    ensures
        ready(short_of_room(st, size, n), d),
        ({
            let st1 = short_of_room(st, size, n);
            &&& st1 == (KvState { m: st1.m, gc_request: true, ..st })
            &&& st1.m.budget is Some
        }),
{
    let f = power::failing(st, n);
    lookup::lemma_find_room(f, d, size);
}

/// The power goes away while garbage is collected to make room for a value that is to be set.
/// What is left on the medium is the image of a database, in which at most one record waits
/// to be deleted and one was being written. Where opening the database can finish these,
/// every name reads as before.
#[verifier::rlimit(40)]
pub proof fn power_loss_in_collection(
    st: KvState,
    d: Map<int, Sect>,
    key: Seq<u8>,
    value: Seq<u8>,
    n: nat,
    defaults: Seq<(Seq<u8>, Seq<u8>)>,
) -> (out: (Map<int, Sect>, Pending, Map<int, Sect>))
    requires
        laws::fair(st, d),
        collects(st, model::record_len(key, value), n),
        ({
            let size = model::record_len(key, value);
            !model::gc(short_of_room(st, size, n), size).m.powered()
        }),
    ensures
        ({
            let lost = model::set_value(power::failing(st, n), key, value).0.m;
            let m = power::powered_again(lost);
            let (st1, r) = model::open_db(m, st.geo, defaults, false);
            let (left, q, d1) = out;
            &&& open::patched(m, st.geo, left)
            &&& recover::pends(st.geo, left, q)
            &&& resume::same_alive(st.geo, d, nothing(), left, q)
            &&& can_finish(m, st.geo, defaults) ==> {
                &&& r is Ok
                &&& laws::fair(st1, d1)
                &&& forall|k: Seq<u8>| #[trigger]
                    model::lookup(st1, k) == model::lookup(st, k)
            }
        }),
{
    let geo = st.geo;
    let size = model::record_len(key, value);
    let f1 = short_of_room(st, size, n);
    let g = model::gc(f1, size);
    lemma_lost(st, key, value, n);
    lemma_short(st, d, size, n);
    let (left, q, b) = lemma_gc(f1, d, size);
    let m = power::powered_again(g.m);
    let (st1, r) = model::open_db(m, geo, defaults, false);
    match b {
        None => {
            lemma_powered_again(g.m, geo, d, left);
            let d1 = open::lemma_open_patched(m, geo, left, defaults);
            gc::lemma_same_live_trans(geo, d, left, d1);
            lemma_uncut(geo, left, 0);
            open::lemma_alive_live(geo, d, left);
            assert forall|k: Seq<u8>| #[trigger] model::lookup(st1, k)
                == model::lookup(st, k) by {
                lemma_same_lookup(st, d, st1, d1, k);
            }
            (left, nothing(), d1)
        },
        Some(s) => {
            assert(open::patched(m, geo, left));
            if can_finish(m, geo, defaults) {
                ring::lemma_first(geo, 0);
                open::lemma_oldest(m, geo, left, 0, SectorStoreStatus::Unused, 0);
                let st0 = resume::opening(m, geo, defaults, false);
                ring::lemma_first(geo, st0.oldest);
                open::lemma_headers_ok(m, geo, left, false, st0.oldest, 0);
                if exists|a: int|
                    db::is_sector(geo, a) && (#[trigger] model::sector_head(m, a)).store
                        == SectorStoreStatus::Empty {
                    let a = choose|a: int|
                        db::is_sector(geo, a) && (#[trigger] model::sector_head(m, a)).store
                            == SectorStoreStatus::Empty;
                    image::lemma_head(m, geo, left, a);
                    assert(left[a].store == SectorStoreStatus::Empty);
                }
                assert(resume::dirty(left[s]));
                let d1 = if lookup::has_empty(geo, left) {
                    resume::lemma_open_left(m, geo, left, q, defaults, false)
                } else {
                    assert(!lookup::has_two_empty(geo, left)) by {
                        if lookup::has_two_empty(geo, left) {
                            let (x, y) = choose|x: int, y: int|
                                #![trigger left[x], left[y]]
                                x != y && db::is_sector(geo, x) && db::is_sector(geo, y)
                                    && left[x].store == SectorStoreStatus::Empty && left[y].store
                                    == SectorStoreStatus::Empty;
                            assert(left[x].store == SectorStoreStatus::Empty);
                        }
                    }
                    resume::lemma_open_interrupted(m, geo, left, q, s, defaults, false)
                };
                resume::lemma_alive_trans(geo, d, nothing(), left, q, d1, nothing());
                open::lemma_alive_live(geo, d, d1);
                assert forall|k: Seq<u8>| #[trigger] model::lookup(st1, k)
                    == model::lookup(st, k) by {
                    lemma_same_lookup(st, d, st1, d1, k);
                }
                (left, q, d1)
            } else {
                (left, q, left)
            }
        },
    }
}

/// Garbage is collected to make room for a value that is to be set, and the power is still
/// there: setting the value then is setting it in the database that collecting left, in
/// which every name reads as before.
pub proof fn set_after_collection(
    st: KvState,
    d: Map<int, Sect>,
    key: Seq<u8>,
    value: Seq<u8>,
    n: nat,
) -> (d1: Map<int, Sect>)
    requires
        laws::fair(st, d),
        collects(st, model::record_len(key, value), n),
        ({
            let size = model::record_len(key, value);
            model::gc(short_of_room(st, size, n), size).m.powered()
        }),
    ensures
        ({
            let size = model::record_len(key, value);
            let g = model::gc(short_of_room(st, size, n), size);
            let st1 = KvState { m: power::powered_again(g.m), ..g };
            &&& laws::fair(st1, d1)
            &&& gc::uncollected(st.geo, d) ==> gc::uncollected(st.geo, d1)
            &&& forall|k: Seq<u8>| #[trigger]
                    model::lookup(st1, k) == model::lookup(st, k)
            &&& model::find_room(g, size).1 is Some ==> model::set_value(
                power::failing(st, n),
                key,
                value,
            ) == model::set_value(power::failing(st1, g.m.budget.unwrap()), key, value)
        }),
{
    reveal(model::new_room);
    let geo = st.geo;
    let size = model::record_len(key, value);
    let f1 = short_of_room(st, size, n);
    let g = model::gc(f1, size);
    lemma_short(st, d, size, n);
    let (d1, q, b) = lemma_gc(f1, d, size);
    let st1 = KvState { m: power::powered_again(g.m), ..g };
    assert(power::failing(st1, g.m.budget.unwrap()) == g);
    assert forall|k: Seq<u8>| #[trigger] model::lookup(st1, k)
        == model::lookup(st, k) by {
        lemma_same_lookup(st, d, st1, d1, k);
    }
    d1
}

/// Whether opening a database once the power went away while `key` was set to `value` can finish
/// what is left: bring back the record that `key` had before, or finish collecting garbage.
pub open spec fn survives(
    st: KvState,
    d: Map<int, Sect>,
    key: Seq<u8>,
    value: Seq<u8>,
    n: nat,
    defaults: Seq<(Seq<u8>, Seq<u8>)>,
) -> bool {
    let size = model::record_len(key, value);
    let g = model::gc(short_of_room(st, size, n), size);
    let st1 = KvState { m: power::powered_again(g.m), ..g };
    if power::target(st, n, size) is Some {
        power::recoverable(st, d, key, value, n, defaults, false) || (gc::uncollected(st.geo, d)
            && gc::has_space(st.geo, d, size + power::old_len(st, key)))
    } else if !collects(st, size, n) {
        true
    } else if !g.m.powered() {
        can_finish(power::powered_again(g.m), st.geo, defaults)
    } else {
        model::find_room(g, size).1 is Some ==> forall|d1: Map<int, Sect>|
            laws::fair(st1, d1) ==> #[trigger] power::recoverable(
                st1,
                d1,
                key,
                value,
                g.m.budget.unwrap(),
                defaults,
                false,
            )
    }
}

/// The medium stays as finding room leaves it where none is found.
proof fn lemma_refused(st: KvState, d: Map<int, Sect>, key: Seq<u8>, value: Seq<u8>, n: nat) -> (d1:
    Map<int, Sect>)
    requires
        laws::fair(st, d),
        ({
            let size = model::record_len(key, value);
            let g = model::gc(short_of_room(st, size, n), size);
            &&& power::target(st, n, size) is None
            &&& collects(st, size, n) ==> g.m.powered() && model::find_room(g, size).1 is None
        }),
    ensures
        ({
            let m = power::powered_again(
                model::set_value(power::failing(st, n), key, value).0.m,
            );
            &&& laws::fair(KvState { m, ..st }, d1)
            &&& gc::same_live(st.geo, d, d1)
        }),
{
    reveal(model::new_room);
    let geo = st.geo;
    let size = model::record_len(key, value);
    let f = power::failing(st, n);
    lookup::lemma_find_room(f, d, size);
    let f1 = short_of_room(st, size, n);
    let g = model::gc(f1, size);
    if collects(st, size, n) {
        lemma_short(st, d, size, n);
        let (d1, q, b) = lemma_gc(f1, d, size);
        lookup::lemma_find_room(g, d1, size);
        assert(model::set_value(f, key, value).0.m == model::find_room(g, size).0.m);
        d1
    } else {
        assert(model::set_value(f, key, value).0.m == f1.m);
        d
    }
}

/// The power goes away at any time while a name is set to a value, be it while garbage is
/// collected for it or while its record is written. Once the database was opened again the name
/// reads as before or as the new value, every other name reads as before, and the database is
/// as good as before.
pub proof fn power_loss_while_setting(
    st: KvState,
    d: Map<int, Sect>,
    key: Seq<u8>,
    value: Seq<u8>,
    n: nat,
    defaults: Seq<(Seq<u8>, Seq<u8>)>,
) -> (d1: Map<int, Sect>)
    requires
        laws::fair(st, d),
        key.len() <= KV_NAME_MAX,
        survives(st, d, key, value, n, defaults),
    ensures
        ({
            let gone = model::set_value(power::failing(st, n), key, value).0.m;
            let (st1, r) = model::open_db(power::powered_again(gone), st.geo, defaults, false);
            &&& r is Ok
            &&& laws::fair(st1, d1)
            &&& model::lookup(st1, key) == model::lookup(st, key) || model::lookup(st1, key)
                == Some(value)
            &&& forall|k: Seq<u8>|
                k != key ==> #[trigger] model::lookup(st1, k) == model::lookup(st, k)
        }),
{
    let geo = st.geo;
    let size = model::record_len(key, value);
    let f = power::failing(st, n);
    let gone = model::set_value(f, key, value).0.m;
    let m = power::powered_again(gone);
    let g = model::gc(short_of_room(st, size, n), size);
    let (st1, r) = model::open_db(m, geo, defaults, false);
    if power::target(st, n, size) is Some {
        power::power_loss_in_set(st, d, key, value, n, defaults, false)
    } else if collects(st, size, n) && !g.m.powered() {
        lemma_lost(st, key, value, n);
        power_loss_in_collection(st, d, key, value, n, defaults).2
    } else if collects(st, size, n) && model::find_room(g, size).1 is Some {
        let sta = KvState { m: power::powered_again(g.m), ..g };
        let da = set_after_collection(st, d, key, value, n);
        let left = g.m.budget.unwrap();
        lemma_short(st, d, size, n);
        let after = lemma_gc(short_of_room(st, size, n), d, size);
        assert(power::failing(sta, left) == g);
        assert(power::recoverable(sta, da, key, value, left, defaults, false));
        let d1 = power::power_loss_in_set(sta, da, key, value, left, defaults, false);
        assert forall|k: Seq<u8>| k != key implies #[trigger] model::lookup(st1, k)
            == model::lookup(st, k) by {
            assert(model::lookup(sta, k) == model::lookup(st, k));
        }
        assert(model::lookup(sta, key) == model::lookup(st, key));
        d1
    } else {
        let da = lemma_refused(st, d, key, value, n);
        let sta = KvState { m, ..st };
        let d1 = open::reopen_keeps_contents(sta, da, defaults, false);
        assert forall|k: Seq<u8>| #[trigger] model::lookup(st1, k) == model::lookup(st, k) by {
            assert(model::lookup(st1, k) == model::lookup(sta, k));
            laws::lemma_same_lookup(st, d, sta, da, k);
        }
        d1
    }
}

} // verus!
