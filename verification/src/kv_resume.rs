//! How opening the key-value database resumes garbage collection that a power loss
//! interrupted, and collects garbage for a record that it finds no room for.
use vstd::prelude::*;

use crate::db;
use crate::db::Geo;
use crate::def::{KvStatus, SectorDirtyStatus, SectorStoreStatus, KV_NAME_MAX};
use crate::flash;
use crate::kv_change as change;
use crate::kv_gc as gc;
use crate::kv_image as image;
use crate::kv_image::{Rec, Sect};
use crate::kv_laws as laws;
use crate::kv_lookup as lookup;
use crate::kv_model as model;
use crate::kv_model::{KvState, Node, SecInfo, SECTOR_NOT_COMBINED};
use crate::kv_open as open;
use crate::kv_recover as recover;
use crate::kv_recover::Pending;
use crate::ring;
use crate::storage::Medium;

verus! {

/// Whether the record that waits to be deleted has this name and value.
pub open spec fn waits(d: Map<int, Sect>, q: Pending, name: Seq<u8>, v: Seq<u8>) -> bool {
    q.del matches Some((b, j)) && d[b].recs[j].name == name && d[b].recs[j].value == v
}

/// Whether a record with this name and value is live, or waits to be deleted and no other
/// one took its place.
pub open spec fn alive(geo: Geo, d: Map<int, Sect>, q: Pending, name: Seq<u8>, v: Seq<u8>) -> bool {
    gc::has_live(geo, d, name, v) || (waits(d, q, name, v) && !recover::known(geo, d, name))
}

/// Whether the same names and values are alive in two images.
pub open spec fn same_alive(
    geo: Geo,
    d: Map<int, Sect>,
    q: Pending,
    d1: Map<int, Sect>,
    q1: Pending,
) -> bool {
    forall|name: Seq<u8>, v: Seq<u8>| #[trigger]
        alive(geo, d1, q1, name, v) <==> alive(geo, d, q, name, v)
}

/// Whether a sector is dirty, or is being collected.
pub open spec fn dirty(s: Sect) -> bool {
    s.dirty == SectorDirtyStatus::True || s.dirty == SectorDirtyStatus::Gc
}

/// What holds of a database while garbage is collected on opening.
pub open spec fn resuming(st: KvState, d: Map<int, Sect>, q: Pending) -> bool {
    &&& gc::moving(st, d)
    &&& st.recovering
    &&& recover::pends(st.geo, d, q)
}

/// Whether the record that waits to be deleted, if one does in `d1`, is the one of `d`.
pub open spec fn still_waits(d: Map<int, Sect>, q: Pending, d1: Map<int, Sect>, q1: Pending) -> bool {
    q1.del matches Some((b, j)) ==> q.del == q1.del && recover::same_record(
        d[b].recs[j],
        d1[b].recs[j],
    )
}

/// Two steps in a row.
pub proof fn lemma_alive_trans(
    geo: Geo,
    d: Map<int, Sect>,
    q: Pending,
    d1: Map<int, Sect>,
    q1: Pending,
    d2: Map<int, Sect>,
    q2: Pending,
)
    requires
        same_alive(geo, d, q, d1, q1),
        same_alive(geo, d1, q1, d2, q2),
    ensures
        same_alive(geo, d, q, d2, q2),
{
    assert forall|name: Seq<u8>, v: Seq<u8>| #[trigger]
        alive(geo, d2, q2, name, v) <==> alive(geo, d, q, name, v) by {
        assert(alive(geo, d1, q1, name, v) <==> alive(geo, d, q, name, v));
    }
}

/// Where the same is live and the same waits, the same is alive.
pub proof fn lemma_alive_same(
    geo: Geo,
    d: Map<int, Sect>,
    q: Pending,
    d1: Map<int, Sect>,
    q1: Pending,
)
    requires
        gc::same_live(geo, d, d1),
        q1.del == q.del,
        q.del matches Some((b, j)) ==> d1[b].recs[j].name == d[b].recs[j].name
            && d1[b].recs[j].value == d[b].recs[j].value,
    ensures
        same_alive(geo, d, q, d1, q1),
{
    assert forall|name: Seq<u8>, v: Seq<u8>| #[trigger]
        alive(geo, d1, q1, name, v) <==> alive(geo, d, q, name, v) by {
        assert(gc::has_live(geo, d1, name, v) <==> gc::has_live(geo, d, name, v));
        lemma_same_known(geo, d, d1, name);
    }
}

/// Where the same is live the same is known.
pub proof fn lemma_same_known(geo: Geo, d: Map<int, Sect>, d1: Map<int, Sect>, name: Seq<u8>)
    requires
        gc::same_live(geo, d, d1),
    ensures
        recover::known(geo, d1, name) == recover::known(geo, d, name),
{
    if recover::known(geo, d, name) {
        let v = choose|v: Seq<u8>| #[trigger] gc::has_live(geo, d, name, v);
        assert(gc::has_live(geo, d1, name, v));
    }
    if recover::known(geo, d1, name) {
        let v = choose|v: Seq<u8>| #[trigger] gc::has_live(geo, d1, name, v);
        assert(gc::has_live(geo, d, name, v));
    }
}

// --------------------------------------------------------------------- single records

/// What moving a record of the sector at `s` keeps of what is unfinished.
proof fn lemma_moved_pends(geo: Geo, d: Map<int, Sect>, q: Pending, s: int, i: int, t: int)
    requires
        recover::pends(geo, d, q),
        db::is_sector(geo, s),
        db::is_sector(geo, t),
        s != t,
        0 <= i < d[s].recs.len(),
        d[s].recs[i].status != KvStatus::PreWrite,
    ensures
        recover::pends(
            geo,
            gc::moved(d, s, i, t),
            Pending {
                del: if q.del == Some((s, i)) {
                    None
                } else {
                    q.del
                },
                ..q
            },
        ),
{
    let d1 = gc::moved(d, s, i, t);
    let q1 = Pending {
        del: if q.del == Some((s, i)) {
            None
        } else {
            q.del
        },
        ..q
    };
    assert forall|x: int, y: int| db::is_sector(geo, x) && 0 <= y < d1[x].recs.len() implies ((
    #[trigger] d1[x].recs[y]).status == KvStatus::PreDelete <==> q1.del == Some((x, y))) && (
    d1[x].recs[y].status == KvStatus::PreWrite <==> q1.put == Some((x, y))) by {
        if x == t && y == d[t].recs.len() {
        } else if x == s && y == i {
            assert(d[s].recs[i].status != KvStatus::PreWrite);
        } else {
            assert(d1[x].recs[y] == d[x].recs[y]);
        }
    }
    match q1.del {
        Some((b, j)) => {
            assert(d1[b].recs[j] == d[b].recs[j]);
        },
        None => {},
    }
    match q1.put {
        Some((a, l)) => {
            assert(d1[a].recs.len() >= d[a].recs.len());
        },
        None => {},
    }
}

/// Moving a live record of a sector that is being collected.
proof fn lemma_move_on(
    st: KvState,
    d: Map<int, Sect>,
    q: Pending,
    s: int,
    i: int,
    n: Node,
    need: int,
) -> (d1: Map<int, Sect>)
    requires
        resuming(st, d, q),
        db::is_sector(st.geo, s),
        d[s].dirty == SectorDirtyStatus::Gc,
        gc::live(st.geo, d, s, i),
        lookup::shown(d, s, i, n),
        image::size(d[s].recs[i]) <= need,
        gc::reserve(st.geo, d, s, need) || model::move_node(st, n).1 is Ok,
    ensures
        ({
            let (st1, r) = model::move_node(st, n);
            &&& st1 == (KvState { m: st1.m, ..st })
            &&& resuming(st1, d1, q)
            &&& same_alive(st.geo, d, q, d1, q)
            &&& still_waits(d, q, d1, q)
            &&& gc::grown(st.geo, d, d1, s)
            &&& d1[s].recs == d[s].recs.update(
                i,
                Rec { status: KvStatus::Deleted, ..d[s].recs[i] },
            )
            &&& gc::reserve(st.geo, d, s, need) ==> gc::reserve(
                st.geo,
                d1,
                s,
                need - image::size(d[s].recs[i]),
            )
        }),
{
    let geo = st.geo;
    let t = gc::lemma_move(st, d, s, i, n, need);
    let d1 = gc::moved(d, s, i, t);
    gc::lemma_moved(geo, d, s, i, t);
    assert(q.del != Some((s, i))) by {
        assert(d[s].recs[i].status == KvStatus::Write);
    }
    lemma_moved_pends(geo, d, q, s, i, t);
    match q.del {
        Some((b, j)) => {
            assert(d1[b].recs[j] == d[b].recs[j]);
        },
        None => {},
    }
    lemma_alive_same(geo, d, q, d1, q);
    d1
}

/// Moving the record that waits to be deleted out of a sector that is being collected: it
/// becomes live elsewhere, unless it is already.
#[verifier::rlimit(40)]
proof fn lemma_regain_on(
    st: KvState,
    d: Map<int, Sect>,
    q: Pending,
    s: int,
    i: int,
    n: Node,
    need: int,
) -> (d1: Map<int, Sect>)
    requires
        resuming(st, d, q),
        q.del == Some((s, i)),
        d[s].dirty == SectorDirtyStatus::Gc,
        lookup::shown(d, s, i, n),
        image::size(d[s].recs[i]) <= need,
        gc::reserve(st.geo, d, s, need) || model::move_node(st, n).1 is Ok,
    ensures
        ({
            let (st1, r) = model::move_node(st, n);
            let q1 = Pending { del: None, ..q };
            &&& st1 == (KvState { m: st1.m, ..st })
            &&& resuming(st1, d1, q1)
            &&& same_alive(st.geo, d, q, d1, q1)
            &&& gc::grown(st.geo, d, d1, s)
            &&& d1[s].recs == d[s].recs.update(
                i,
                Rec { status: KvStatus::Deleted, ..d[s].recs[i] },
            )
            &&& gc::reserve(st.geo, d, s, need) ==> gc::reserve(
                st.geo,
                d1,
                s,
                need - image::size(d[s].recs[i]),
            )
        }),
{
    reveal(model::move_node);
    let geo = st.geo;
    let rec = d[s].recs[i];
    let key = rec.name;
    let len = image::body(rec);
    let q1 = Pending { del: None, ..q };
    assert(rec.status == KvStatus::PreDelete);
    assert(image::sector_at(st.m.bytes, geo, s, d[s]));
    image::lemma_place(st.m.bytes, geo, s, d[s], i);
    lookup::lemma_find_room(st, d, len);
    let (st1, slot) = model::find_room(st, len);
    let t0 = choose|t: int| gc::reserve_in(geo, d, s, need, t);
    let kept = gc::reserve(geo, d, s, need);
    assert(kept ==> gc::reserve_in(geo, d, s, need, t0));
    assert(slot is Some) by {
        if kept {
            if d[t0].store == SectorStoreStatus::Using {
                assert(lookup::can_take(geo, d, t0, SectorStoreStatus::Using, len, true));
            } else {
                assert(lookup::can_take(geo, d, t0, SectorStoreStatus::Empty, len, true));
            }
        }
    }
    let info = slot.unwrap();
    let t = choose|a: int| #[trigger] lookup::slot_in(geo, d, a, len, true, info);
    assert(lookup::slot_in(geo, d, t, len, true, info));
    assert(t != s);
    assert(n.name.subrange(0, n.name_len) == key);
    lookup::lemma_find(st1, d, key);
    let twin = model::find(st1, key);
    laws::lookup_gives_the_live_value(st1, d, key);
    assert(twin.2 == recover::known(geo, d, key)) by {
        assert(twin.2 == model::lookup(st1, key) is Some);
        if twin.2 {
            let v = model::lookup(st1, key).unwrap();
            assert(gc::has_live(geo, d, key, v));
        }
    }
    let ds = recover::dropped(d, s, i);
    recover::lemma_dead(geo, d, s, i, ds[s]);
    if twin.2 {
        change::lemma_delete_at(twin.0, geo, d, s, i, true);
        lemma_dropped_on(geo, d, q, s, i);
        assert forall|name: Seq<u8>, w: Seq<u8>| #[trigger]
            alive(geo, ds, q1, name, w) <==> alive(geo, d, q, name, w) by {
            assert(gc::has_live(geo, ds, name, w) <==> gc::has_live(geo, d, name, w));
        }
        if kept {
            assert(ds[t0] == d[t0]);
            assert(gc::reserve_in(geo, ds, s, need - image::size(rec), t0));
        }
        ds
    } else {
        change::lemma_move_body(twin.0, geo, d, s, i, t, info, n);
        let m2 = model::move_body(twin.0, n, info).0;
        let dc = laws::added(d, t, key, rec.value);
        assert(dc[s] == d[s]);
        change::lemma_delete_at(m2, geo, dc, s, i, true);
        let d1 = dc.insert(s, change::struck(dc[s], i, KvStatus::Deleted));
        assert(d1 =~= laws::added(ds, t, key, rec.value));
        assert(d1 =~= gc::moved(d, s, i, t));
        assert forall|v: Seq<u8>| !#[trigger] gc::has_live(geo, ds, key, v) by {
            assert(gc::has_live(geo, ds, key, v) <==> gc::has_live(geo, d, key, v));
        }
        laws::lemma_added(geo, ds, t, key, rec.value);
        lemma_moved_pends(geo, d, q, s, i, t);
        assert forall|name: Seq<u8>, w: Seq<u8>| #[trigger]
            alive(geo, d1, q1, name, w) <==> alive(geo, d, q, name, w) by {
            assert(gc::has_live(geo, ds, name, w) <==> gc::has_live(geo, d, name, w));
        }
        if kept {
            assert(gc::reserve_in(geo, d1, s, need - image::size(rec), t0)) by {
                if t == t0 {
                    gc::lemma_push_span(d[t].recs, change::live_rec(key, rec.value));
                } else {
                    assert(d1[t0] == d[t0]);
                }
            }
        }
        d1
    }
}

/// Dropping the record that waits to be deleted.
proof fn lemma_dropped_on(geo: Geo, d: Map<int, Sect>, q: Pending, b: int, j: int)
    requires
        recover::pends(geo, d, q),
        q.del == Some((b, j)),
    ensures
        recover::pends(geo, recover::dropped(d, b, j), Pending { del: None, ..q }),
{
    let d1 = recover::dropped(d, b, j);
    let q1 = Pending { del: None, ..q };
    assert(d[b].recs[j].status == KvStatus::PreDelete);
    assert forall|x: int, y: int| db::is_sector(geo, x) && 0 <= y < d1[x].recs.len() implies ((
    #[trigger] d1[x].recs[y]).status == KvStatus::PreDelete <==> q1.del == Some((x, y))) && (
    d1[x].recs[y].status == KvStatus::PreWrite <==> q1.put == Some((x, y))) by {
        let r = d[x].recs[y];
        if x == b && y == j {
        } else {
            assert(d1[x].recs[y] == r);
        }
    }
}

// ------------------------------------------------------------------ collecting a sector

/// Whether collecting a sector moves the record `r`.
pub open spec fn movable(r: Rec) -> bool {
    r.sound && (r.status == KvStatus::Write || r.status == KvStatus::PreDelete)
}

/// The length of the records from the `i`th on that collecting their sector moves.
pub open spec fn weight(recs: Seq<Rec>, i: int) -> int
    decreases recs.len() - i,
{
    if i < 0 || i >= recs.len() {
        0
    } else {
        (if movable(recs[i]) {
            image::size(recs[i])
        } else {
            0
        }) + weight(recs, i + 1)
    }
}

proof fn lemma_weight_same(a: Seq<Rec>, b: Seq<Rec>, i: int)
    requires
        a.len() == b.len(),
        0 <= i,
        forall|k: int| i <= k < a.len() ==> #[trigger] a[k] == b[k],
    ensures
        weight(a, i) == weight(b, i),
    decreases a.len() - i,
{
    if i < a.len() {
        assert(a[i] == b[i]);
        lemma_weight_same(a, b, i + 1);
    }
}

/// The records that are moved are not longer than all records.
proof fn lemma_weight(recs: Seq<Rec>, i: int)
    requires
        0 <= i <= recs.len(),
        forall|k: int| 0 <= k < recs.len() ==> image::size(#[trigger] recs[k]) >= 0,
    ensures
        0 <= weight(recs, i) <= image::span(recs) - image::reach(recs, i),
    decreases recs.len() - i,
{
    if i < recs.len() {
        lemma_weight(recs, i + 1);
        assert(image::reach(recs, i + 1) == image::reach(recs, i) + image::size(recs[i]));
    }
}

/// Whether every record that collecting the sector `s` moves finds room, from the node object
/// `n` on.
pub open spec fn all_move(st: KvState, s: SecInfo, n: Node) -> bool
    decreases s.at + st.geo.sec - n.at,
{
    let n1 = model::read_node(st.m, st.geo, n);
    let st1 = KvState { m: model::after_read(st.m, st.geo, n.at), ..st };
    let moves = n1.crc_ok && (n1.status == KvStatus::Write || n1.status == KvStatus::PreDelete);
    let st2 = if moves {
        model::move_node(st1, n1).0
    } else {
        st1
    };
    &&& moves ==> model::move_node(st1, n1).1 is Ok
    &&& match model::next_node(st2.m.bytes, st.geo, s, n1) {
        None => true,
        Some(a) => n.at < a <= s.at + st.geo.sec ==> all_move(
            KvState { geo: st.geo, ..st2 },
            s,
            Node { at: a, ..n1 },
        ),
    }
}

/// Whether `d1` is what moving the `i`th record of the sector at `s` of `d`, if it is to be
/// moved, makes of that sector.
pub open spec fn past(geo: Geo, d: Map<int, Sect>, d1: Map<int, Sect>, s: int, i: int) -> bool {
    &&& gc::grown(geo, d, d1, s)
    &&& d1[s].recs.len() == d[s].recs.len()
    &&& !movable(d1[s].recs[i])
    &&& d1[s].recs[i].sound == d[s].recs[i].sound
    &&& image::body(d1[s].recs[i]) == image::body(d[s].recs[i])
    &&& image::size(d1[s].recs[i]) == image::size(d[s].recs[i])
    &&& forall|k: int|
        0 <= k < d[s].recs.len() && k != i ==> #[trigger] d1[s].recs[k] == d[s].recs[k]
}

/// Moving one record of a sector that is being collected, if it is to be moved.
#[verifier::rlimit(40)]
proof fn lemma_turn_on(
    st: KvState,
    d: Map<int, Sect>,
    q: Pending,
    s: int,
    i: int,
    n1: Node,
) -> (out: (Map<int, Sect>, Pending))
    requires
        resuming(st, d, q),
        db::is_sector(st.geo, s),
        d[s].dirty == SectorDirtyStatus::Gc,
        0 <= i < d[s].recs.len(),
        d[s].recs[i].sound ==> lookup::shown(d, s, i, n1),
        !d[s].recs[i].sound ==> !n1.crc_ok,
        gc::reserve(st.geo, d, s, weight(d[s].recs, i)) || (movable(d[s].recs[i])
            ==> model::move_node(st, n1).1 is Ok),
    ensures
        ({
            let geo = st.geo;
            let st2 = if n1.crc_ok && (n1.status == KvStatus::Write || n1.status
                == KvStatus::PreDelete) {
                model::move_node(st, n1).0
            } else {
                st
            };
            let (d2, q2) = out;
            &&& st2 == (KvState { m: st2.m, ..st })
            &&& resuming(st2, d2, q2)
            &&& same_alive(geo, d, q, d2, q2)
            &&& still_waits(d, q, d2, q2)
            &&& past(geo, d, d2, s, i)
            &&& gc::reserve(geo, d, s, weight(d[s].recs, i)) ==> gc::reserve(
                geo,
                d2,
                s,
                weight(d2[s].recs, i + 1),
            )
            &&& q2 == (Pending {
                del: if q.del == Some((s, i)) {
                    None
                } else {
                    q.del
                },
                ..q
            })
        }),
{
    let geo = st.geo;
    let recs = d[s].recs;
    let need = weight(recs, i);
    assert(image::sector_at(st.m.bytes, geo, s, d[s]));
    image::lemma_open_sector(st.m.bytes, geo, s, d[s]);
    lemma_weight(recs, i + 1);
    assert(recs[i].status == KvStatus::PreDelete <==> q.del == Some((s, i)));
    let (d2, q2) = if !movable(recs[i]) {
        assert(q.del != Some((s, i)));
        (d, q)
    } else if recs[i].status == KvStatus::PreDelete {
        (lemma_regain_on(st, d, q, s, i, n1, need), Pending { del: None, ..q })
    } else {
        (lemma_move_on(st, d, q, s, i, n1, need), q)
    };
    lemma_weight_same(d2[s].recs, recs, i + 1);
    (d2, q2)
}

/// One step of collecting a sector.
#[verifier::rlimit(40)]
proof fn lemma_step_on(
    st: KvState,
    d: Map<int, Sect>,
    q: Pending,
    s: int,
    info: SecInfo,
    i: int,
    n: Node,
) -> (out: (Map<int, Sect>, Pending))
    requires
        resuming(st, d, q),
        db::is_sector(st.geo, s),
        info.at == s,
        info.store == d[s].store,
        d[s].dirty == SectorDirtyStatus::Gc,
        0 <= i < d[s].recs.len(),
        n.at == image::place(s, d[s].recs, i),
        n.name.len() == KV_NAME_MAX,
        gc::reserve(st.geo, d, s, weight(d[s].recs, i)) || all_move(st, info, n),
    ensures
        ({
            let geo = st.geo;
            let n1 = model::read_node(st.m, geo, n);
            let st1 = KvState { m: model::after_read(st.m, geo, n.at), ..st };
            let st2 = if n1.crc_ok && (n1.status == KvStatus::Write || n1.status
                == KvStatus::PreDelete) {
                model::move_node(st1, n1).0
            } else {
                st1
            };
            let (d2, q2) = out;
            &&& st2 == (KvState { m: st2.m, ..st })
            &&& resuming(st2, d2, q2)
            &&& same_alive(geo, d, q, d2, q2)
            &&& still_waits(d, q, d2, q2)
            &&& past(geo, d, d2, s, i)
            &&& gc::reserve(geo, d, s, weight(d[s].recs, i)) ==> gc::reserve(
                geo,
                d2,
                s,
                weight(d2[s].recs, i + 1),
            )
            &&& q2 == (Pending {
                del: if q.del == Some((s, i)) {
                    None
                } else {
                    q.del
                },
                ..q
            })
            &&& model::next_node(st2.m.bytes, geo, info, n1) == (if i + 1 < d[s].recs.len() {
                Some(image::place(s, d2[s].recs, i + 1))
            } else {
                None
            })
            &&& n.at < image::place(s, d2[s].recs, i + 1) < s + geo.sec
            &&& n1.name.len() == KV_NAME_MAX
        }),
{
    let geo = st.geo;
    let recs = d[s].recs;
    image::lemma_step(st.m, geo, d, s, info, i, n);
    assert(image::sector_at(st.m.bytes, geo, s, d[s]));
    image::lemma_place(st.m.bytes, geo, s, d[s], i);
    let n1 = model::read_node(st.m, geo, n);
    let sta = KvState { m: model::after_read(st.m, geo, n.at), ..st };
    let (d2, q2) = lemma_turn_on(sta, d, q, s, i, n1);
    let stb = if n1.crc_ok && (n1.status == KvStatus::Write || n1.status == KvStatus::PreDelete) {
        model::move_node(sta, n1).0
    } else {
        sta
    };
    assert(image::sector_at(stb.m.bytes, geo, s, d2[s]));
    gc::lemma_onward(stb.m.bytes, geo, recs, s, d2[s], info, i, n1);
    (d2, q2)
}

/// Moving the records of a sector, from the `i`th record on.
#[verifier::rlimit(40)]
proof fn lemma_evacuate_on(
    st: KvState,
    d: Map<int, Sect>,
    q: Pending,
    s: int,
    info: SecInfo,
    i: int,
    n: Node,
) -> (out: (Map<int, Sect>, Pending))
    requires
        resuming(st, d, q),
        db::is_sector(st.geo, s),
        info.at == s,
        info.store == d[s].store,
        d[s].dirty == SectorDirtyStatus::Gc,
        0 <= i < d[s].recs.len(),
        n.at == image::place(s, d[s].recs, i),
        n.name.len() == KV_NAME_MAX,
        gc::reserve(st.geo, d, s, weight(d[s].recs, i)) || all_move(st, info, n),
        q.del matches Some((b, j)) ==> b == s ==> j >= i,
        forall|k: int| 0 <= k < i ==> !#[trigger] movable(d[s].recs[k]),
    ensures
        ({
            let st1 = model::evacuate(st, info, n);
            let (d1, q1) = out;
            &&& st1 == (KvState { m: st1.m, ..st })
            &&& resuming(st1, d1, q1)
            &&& same_alive(st.geo, d, q, d1, q1)
            &&& still_waits(d, q, d1, q1)
            &&& gc::grown(st.geo, d, d1, s)
            &&& forall|k: int| 0 <= k < d1[s].recs.len() ==> !#[trigger] movable(d1[s].recs[k])
            &&& q1.put is None || q1.put == q.put
            &&& q1.del is None || (q1.del == q.del && q1.del.unwrap().0 != s)
        }),
    decreases d[s].recs.len() - i,
{
    let geo = st.geo;
    let (d2, q2) = lemma_step_on(st, d, q, s, info, i, n);
    let n1 = model::read_node(st.m, geo, n);
    let st1 = KvState { m: model::after_read(st.m, geo, n.at), ..st };
    let st2 = if n1.crc_ok && (n1.status == KvStatus::Write || n1.status == KvStatus::PreDelete) {
        model::move_node(st1, n1).0
    } else {
        st1
    };
    assert forall|k: int| 0 <= k < i + 1 implies !#[trigger] movable(d2[s].recs[k]) by {
        if k < i {
            assert(d2[s].recs[k] == d[s].recs[k]);
        }
    }
    if i + 1 < d[s].recs.len() {
        let n2 = Node { at: image::place(s, d2[s].recs, i + 1), ..n1 };
        let (d3, q3) = lemma_evacuate_on(st2, d2, q2, s, info, i + 1, n2);
        lemma_alive_trans(geo, d, q, d2, q2, d3, q3);
        gc::lemma_grown_trans(geo, d, d2, d3, s);
        (d3, q3)
    } else {
        (d2, q2)
    }
}

/// What is unfinished once the sector at `s` is emptied.
pub open spec fn without(q: Pending, s: int) -> Pending {
    Pending {
        put: if recover::here(q.put, s, 0) {
            None
        } else {
            q.put
        },
        ..q
    }
}

/// Emptying a sector from which everything was moved keeps what is alive.
proof fn lemma_emptied_on(geo: Geo, d: Map<int, Sect>, q: Pending, s: int)
    requires
        gc::unique(geo, d),
        recover::pends(geo, d, q),
        forall|k: int| 0 <= k < d[s].recs.len() ==> !#[trigger] movable(d[s].recs[k]),
        q.del matches Some((b, j)) ==> b != s,
    ensures
        ({
            let d1 = d.insert(s, change::fresh());
            &&& same_alive(geo, d, q, d1, without(q, s))
            &&& gc::unique(geo, d1)
            &&& recover::pends(geo, d1, without(q, s))
        }),
{
    let d1 = d.insert(s, change::fresh());
    let q1 = without(q, s);
    assert forall|a: int, j: int| #[trigger] gc::live(geo, d1, a, j) == gc::live(geo, d, a, j) by {
        if a == s {
            assert(d1[s].recs.len() == 0);
            if 0 <= j < d[s].recs.len() {
                assert(!movable(d[s].recs[j]));
            }
        }
    }
    assert forall|a: int, j: int| #[trigger] gc::live(geo, d1, a, j) implies d1[a] == d[a] by {
        assert(a != s);
    }
    assert(gc::same_live(geo, d, d1)) by {
        assert forall|name: Seq<u8>, v: Seq<u8>| #[trigger]
            gc::has_live(geo, d1, name, v) <==> gc::has_live(geo, d, name, v) by {
            if gc::has_live(geo, d1, name, v) {
                let (a, j) = choose|a: int, j: int| gc::live_as(geo, d1, a, j, name, v);
                assert(gc::live(geo, d1, a, j));
                assert(gc::live_as(geo, d, a, j, name, v));
            }
            if gc::has_live(geo, d, name, v) {
                let (a, j) = choose|a: int, j: int| gc::live_as(geo, d, a, j, name, v);
                assert(gc::live(geo, d1, a, j));
                assert(gc::live_as(geo, d1, a, j, name, v));
            }
        }
    }
    lemma_alive_same(geo, d, q, d1, q1);
    assert forall|a: int, j: int, b: int, k: int|
        #![trigger gc::live(geo, d1, a, j), gc::live(geo, d1, b, k)]
        gc::live(geo, d1, a, j) && gc::live(geo, d1, b, k) && d1[a].recs[j].name
            == d1[b].recs[k].name implies a == b && j == k by {
        assert(gc::live(geo, d, a, j) && gc::live(geo, d, b, k));
    }
    assert forall|x: int, y: int| db::is_sector(geo, x) && 0 <= y < d1[x].recs.len() implies ((
    #[trigger] d1[x].recs[y]).status == KvStatus::PreDelete <==> q1.del == Some((x, y))) && (
    d1[x].recs[y].status == KvStatus::PreWrite <==> q1.put == Some((x, y))) by {
        assert(x != s);
        assert(d1[x].recs[y] == d[x].recs[y]);
    }
}

/// Whether everything that collecting the sector `s` moves finds room.
pub open spec fn moves_out(st: KvState, s: SecInfo) -> bool {
    all_move(
        KvState { m: flash::put_status(st.m, s.at + 1, 3, true), ..st },
        s,
        Node { at: s.at + 16, ..model::blank_node() },
    )
}

/// Resuming the collection of a sector: what it holds moves, and it is formatted.
#[verifier::rlimit(40)]
proof fn lemma_clear_on(st: KvState, d: Map<int, Sect>, q: Pending, s: int, info: SecInfo) -> (out: (
    Map<int, Sect>,
    Pending,
))
    requires
        resuming(st, d, q),
        db::is_sector(st.geo, s),
        info.at == s,
        info.store == d[s].store,
        dirty(d[s]),
        gc::reserve(st.geo, d, s, weight(d[s].recs, 0)) || moves_out(st, info),
    ensures
        ({
            let geo = st.geo;
            let m1 = flash::put_status(st.m, s + 1, 3, true);
            let n0 = Node { at: s + 16, ..model::blank_node() };
            let st2 = model::evacuate(KvState { m: m1, ..st }, info, n0);
            let m3 = model::format(st2.m, geo, s, SECTOR_NOT_COMBINED as int).0;
            let (d1, q1) = out;
            &&& st2 == (KvState { m: st2.m, ..st })
            &&& resuming(KvState { m: m3, ..st }, d1, q1)
            &&& same_alive(geo, d, q, d1, q1)
            &&& d1[s] == change::fresh()
            &&& forall|a: int| db::is_sector(geo, a) && a != s ==> (#[trigger] d1[a]).dirty
                == d[a].dirty
            &&& q1.put is None || q1.put == q.put
            &&& still_waits(d, q, d1, q1)
            &&& q1.del matches Some((b, j)) ==> b != s
        }),
{
    let geo = st.geo;
    assert(image::sector_at(st.m.bytes, geo, s, d[s]));
    image::lemma_open_sector(st.m.bytes, geo, s, d[s]);
    change::lemma_put_dirty(st.m, geo, d, s, SectorDirtyStatus::Gc);
    let m1 = flash::put_status(st.m, s + 1, 3, true);
    let st1 = KvState { m: m1, ..st };
    let da = d.insert(s, Sect { dirty: SectorDirtyStatus::Gc, ..d[s] });
    gc::lemma_same_recs(geo, d, da);
    lemma_alive_same(geo, d, q, da, q);
    assert(recover::pends(geo, da, q)) by {
        assert forall|x: int, y: int|
            db::is_sector(geo, x) && 0 <= y < da[x].recs.len() implies ((
        #[trigger] da[x].recs[y]).status == KvStatus::PreDelete <==> q.del == Some((x, y))) && (
        da[x].recs[y].status == KvStatus::PreWrite <==> q.put == Some((x, y))) by {
            assert(da[x].recs[y] == d[x].recs[y]);
        }
    }
    if gc::reserve(geo, d, s, weight(d[s].recs, 0)) {
        let t0 = choose|t: int| gc::reserve_in(geo, d, s, weight(d[s].recs, 0), t);
        assert(gc::reserve_in(geo, d, s, weight(d[s].recs, 0), t0));
        assert(da[t0] == d[t0]);
        assert(gc::reserve_in(geo, da, s, weight(d[s].recs, 0), t0));
    }
    assert(image::reach(d[s].recs, 0) == 0);
    assert(image::place(s, d[s].recs, 0) == s + 16);
    assert(resuming(st1, da, q));
    let n0 = Node { at: s + 16, ..model::blank_node() };
    let (db1, q1) = lemma_evacuate_on(st1, da, q, s, info, 0, n0);
    let st2 = model::evacuate(st1, info, n0);
    change::lemma_format(st2.m, geo, db1, s);
    let d1 = db1.insert(s, change::fresh());
    assert(db1[s].dirty == SectorDirtyStatus::Gc);
    lemma_emptied_on(geo, db1, q1, s);
    let q2 = without(q1, s);
    lemma_alive_trans(geo, d, q, da, q, db1, q1);
    lemma_alive_trans(geo, d, q, db1, q1, d1, q2);
    assert forall|a: int| db::is_sector(geo, a) && a != s implies (#[trigger] d1[a]).dirty
        == d[a].dirty by {
        assert(d1[a] == db1[a]);
        assert(db1[a].dirty == da[a].dirty);
        assert(da[a] == d[a]);
    }
    (d1, q2)
}

/// An empty sector has room for what any dirty sector holds.
proof fn lemma_empty_reserve(m: Medium, geo: Geo, d: Map<int, Sect>, s: int)
    requires
        image::holds_image(m, geo, d),
        db::is_sector(geo, s),
        dirty(d[s]),
        lookup::has_empty(geo, d),
    ensures
        gc::reserve(geo, d, s, weight(d[s].recs, 0)),
{
    let e = choose|a: int|
        db::is_sector(geo, a) && (#[trigger] d[a]).store == SectorStoreStatus::Empty;
    assert(image::sector_at(m.bytes, geo, s, d[s]));
    image::lemma_open_sector(m.bytes, geo, s, d[s]);
    assert(image::sector_at(m.bytes, geo, e, d[e]));
    image::lemma_open_sector(m.bytes, geo, e, d[e]);
    assert(e != s);
    image::lemma_place(m.bytes, geo, s, d[s], 0);
    lemma_weight(d[s].recs, 0);
    assert(image::reach(d[s].recs, 0) == 0);
    assert(image::span(d[e].recs) == 0);
    assert(gc::reserve_in(geo, d, s, weight(d[s].recs, 0), e));
}

/// No sector has more room than its size.
proof fn lemma_remain(m: Medium, geo: Geo, d: Map<int, Sect>, at: int)
    requires
        image::holds_image(m, geo, d),
        db::is_sector(geo, at),
    ensures
        model::sector_full(m, geo, at).1.remain <= geo.sec,
{
    lookup::lemma_full(m, geo, d, at);
    lookup::lemma_span(m, geo, d, at);
    image::lemma_head(m, geo, d, at);
}

/// Collecting one sector on the way.
proof fn lemma_collect_on(
    st: KvState,
    d: Map<int, Sect>,
    q: Pending,
    s: int,
    info: SecInfo,
    last: int,
) -> (out: (Map<int, Sect>, Pending))
    requires
        resuming(st, d, q),
        db::is_sector(st.geo, s),
        image::heads(info, s, d[s]),
        db::is_sector(st.geo, last),
        dirty(d[s]) ==> gc::reserve(st.geo, d, s, weight(d[s].recs, 0)) || moves_out(st, info),
    ensures
        ({
            let (st1, last1, stop) = model::collect_sector(st, info, st.geo.max, last);
            let (d1, q1) = out;
            &&& !stop
            &&& st1 == (KvState { m: st1.m, oldest: st1.oldest, ..st })
            &&& resuming(st1, d1, q1)
            &&& same_alive(st.geo, d, q, d1, q1)
            &&& db::is_sector(st.geo, last1)
            &&& !dirty(d1[s])
            &&& forall|a: int| db::is_sector(st.geo, a) && a != s ==> (#[trigger] d1[a]).dirty
                == d[a].dirty
            &&& dirty(d[s]) ==> lookup::has_empty(st.geo, d1)
            &&& !dirty(d[s]) ==> d1 == d && st1 == st
            &&& q1.put is None || q1.put == q.put
            &&& still_waits(d, q, d1, q1)
            &&& dirty(d[s]) ==> (q1.del matches Some((b, j)) ==> b != s)
            &&& !dirty(d[s]) ==> q1 == q
        }),
{
    reveal(model::collect_sector);
    let geo = st.geo;
    db::lemma_geo(geo);
    if dirty(d[s]) {
        let (d1, q1) = lemma_clear_on(st, d, q, s, info);
        let st1 = KvState { m: flash::put_status(st.m, s + 1, 3, true), ..st };
        let st2 = model::evacuate(st1, info, Node { at: s + 16, ..model::blank_node() });
        let m3 = model::format(st2.m, geo, s, SECTOR_NOT_COMBINED as int).0;
        lookup::lemma_full(m3, geo, d1, last);
        lemma_remain(m3, geo, d1, last);
        model::lemma_next_sector(geo, info, 0);
        assert(lookup::has_empty(geo, d1)) by {
            assert(d1[s].store == SectorStoreStatus::Empty);
        }
        (d1, q1)
    } else {
        (d, q)
    }
}

/// Whether everything that collecting the first dirty sector moves finds room, on a walk from
/// the sector at `at` on that has come past `traversed` bytes.
pub open spec fn first_moves_out(st: KvState, at: int, traversed: int) -> bool
    decreases st.geo.max - traversed,
{
    let s = model::sector_head(st.m, at);
    if s.dirty == SectorDirtyStatus::True || s.dirty == SectorDirtyStatus::Gc {
        moves_out(st, s)
    } else {
        match model::next_sector(st.geo, s, traversed + st.geo.sec) {
            None => true,
            Some(a) => st.geo.sec > 0 && traversed < st.geo.max ==> first_moves_out(
                st,
                a,
                traversed + st.geo.sec,
            ),
        }
    }
}

/// Whether no sector is dirty.
pub open spec fn all_clean(geo: Geo, d: Map<int, Sect>) -> bool {
    forall|x: int| db::is_sector(geo, x) ==> !dirty(#[trigger] d[x])
}

/// Collecting all dirty sectors.
#[verifier::rlimit(40)]
proof fn lemma_walk_on(st: KvState, d: Map<int, Sect>, q: Pending, o: int, t: int, last: int) -> (
    out: (Map<int, Sect>, Pending))
    requires
        resuming(st, d, q),
        ring::on_walk(st.geo, o, t),
        db::is_sector(st.geo, last),
        lookup::has_empty(st.geo, d) || first_moves_out(st, ring::at(st.geo, o, t), t),
        forall|x: int|
            db::is_sector(st.geo, x) && ring::dist(st.geo, o, x) < t ==> !dirty(#[trigger] d[x]),
    ensures
        ({
            let st1 = model::collect_from(st, st.geo.max, last, ring::at(st.geo, o, t), t);
            let (d1, q1) = out;
            &&& st1 == (KvState { m: st1.m, oldest: st1.oldest, ..st })
            &&& resuming(st1, d1, q1)
            &&& same_alive(st.geo, d, q, d1, q1)
            &&& all_clean(st.geo, d1)
            &&& q1.put is None || q1.put == q.put
            &&& still_waits(d, q, d1, q1)
            &&& q1.del matches Some((b, j)) ==> !dirty(d[b])
            &&& lookup::has_empty(st.geo, d) || !all_clean(st.geo, d) ==> lookup::has_empty(
                st.geo,
                d1,
            )
        }),
    decreases st.geo.max - t,
{
    let geo = st.geo;
    let at = ring::at(geo, o, t);
    ring::lemma_walk(geo, o, t);
    image::lemma_head(st.m, geo, d, at);
    let s = model::sector_head(st.m, at);
    if dirty(d[at]) {
        if lookup::has_empty(geo, d) {
            lemma_empty_reserve(st.m, geo, d, at);
        }
    }
    let (d1, q1) = lemma_collect_on(st, d, q, at, s, last);
    let (st1, last1, stop) = model::collect_sector(st, s, geo.max, last);
    lookup::lemma_next(geo, o, t, s);
    assert forall|x: int| db::is_sector(geo, x) && ring::dist(geo, o, x) < t + geo.sec implies
        !dirty(#[trigger] d1[x]) by {
        if x != at {
            if ring::dist(geo, o, x) >= t {
                ring::lemma_ahead(geo, o, t, x);
            }
            assert(!dirty(d[x]));
        }
    }
    if t + geo.sec < geo.max {
        if !lookup::has_empty(geo, d1) {
            assert(d1 == d && st1 == st);
        }
        let (d2, q2) = lemma_walk_on(st1, d1, q1, o, t + geo.sec, last1);
        lemma_alive_trans(geo, d, q, d1, q1, d2, q2);
        (d2, q2)
    } else {
        assert forall|x: int| db::is_sector(geo, x) implies !dirty(#[trigger] d1[x]) by {
            ring::lemma_dist(geo, o, x);
        }
        (d1, q1)
    }
}

/// Counting the empty sectors.
proof fn lemma_empties(m: Medium, geo: Geo, d: Map<int, Sect>, o: int, t: int, n: int, last: int)
    requires
        image::holds_image(m, geo, d),
        ring::on_walk(geo, o, t),
    ensures
        ({
            let k = model::empty_sectors(m, geo, ring::at(geo, o, t), t, n, last).0 - n;
            &&& k >= 0
            &&& k > 0 <==> lookup::one_ahead(geo, d, o, t, SectorStoreStatus::Empty)
            &&& k > 1 <==> lookup::two_ahead(geo, d, o, t, SectorStoreStatus::Empty)
        }),
    decreases geo.max - t,
{
    let at = ring::at(geo, o, t);
    ring::lemma_walk(geo, o, t);
    image::lemma_head(m, geo, d, at);
    let s = model::sector_head(m, at);
    lookup::lemma_next(geo, o, t, s);
    lookup::lemma_one_step(geo, d, o, t, SectorStoreStatus::Empty);
    lookup::lemma_two_step(geo, d, o, t, SectorStoreStatus::Empty);
    if t + geo.sec < geo.max {
        let (n1, last1) = if s.store == SectorStoreStatus::Empty && s.check_ok {
            (n + 1, s.at)
        } else {
            (n, last)
        };
        lemma_empties(m, geo, d, o, t + geo.sec, n1, last1);
    }
}

/// Resumed garbage collection finishes.
proof fn lemma_gc_on(st: KvState, d: Map<int, Sect>, q: Pending) -> (out: (
    Map<int, Sect>,
    Pending,
))
    requires
        resuming(st, d, q),
        lookup::has_empty(st.geo, d) || first_moves_out(st, st.oldest, 0),
        !lookup::has_two_empty(st.geo, d),
        lookup::has_empty(st.geo, d) || !all_clean(st.geo, d),
    ensures
        ({
            let st1 = model::gc(st, st.geo.max);
            let (d1, q1) = out;
            &&& st1 == (KvState { m: st1.m, oldest: st1.oldest, gc_request: false, ..st })
            &&& resuming(KvState { gc_request: true, ..st1 }, d1, q1)
            &&& same_alive(st.geo, d, q, d1, q1)
            &&& all_clean(st.geo, d1)
            &&& q1.put is None || q1.put == q.put
            &&& still_waits(d, q, d1, q1)
            &&& q1.del matches Some((b, j)) ==> !dirty(d[b])
            &&& lookup::has_empty(st.geo, d1)
        }),
{
    reveal(model::gc);
    let geo = st.geo;
    let o = st.oldest;
    ring::lemma_first(geo, o);
    lemma_empties(st.m, geo, d, o, 0, 0, 0);
    lookup::lemma_empties(st.m, geo, d, o, 0, 0, 0);
    let (n, last) = model::empty_sectors(st.m, geo, o, 0, 0, 0);
    assert(n <= 1) by {
        if lookup::two_ahead(geo, d, o, 0, SectorStoreStatus::Empty) {
            let (a, b) = choose|a: int, b: int|
                #![trigger d[a], d[b]]
                a != b && db::is_sector(geo, a) && db::is_sector(geo, b) && ring::dist(geo, o, a)
                    >= 0 && ring::dist(geo, o, b) >= 0 && d[a].store == SectorStoreStatus::Empty
                    && d[b].store == SectorStoreStatus::Empty;
            assert(d[a].store == SectorStoreStatus::Empty && d[b].store
                == SectorStoreStatus::Empty);
        }
    }
    assert forall|x: int| db::is_sector(geo, x) && ring::dist(geo, o, x) < 0 implies !dirty(
        #[trigger] d[x],
    ) by {
        ring::lemma_dist(geo, o, x);
    }
    let (d1, q1) = lemma_walk_on(st, d, q, o, 0, last);
    let st1 = model::collect_from(st, geo.max, last, o, 0);
    assert(KvState { gc_request: true, ..model::gc(st, geo.max) } == st1);
    (d1, q1)
}

/// Resuming garbage collection where a sector that is still to come was being collected.
proof fn lemma_resume(st: KvState, d: Map<int, Sect>, q: Pending, o: int, t: int, s: int) -> (out: (
    Map<int, Sect>,
    Pending,
))
    requires
        !st.gc_request,
        resuming(KvState { gc_request: true, ..st }, d, q),
        lookup::has_empty(st.geo, d) || first_moves_out(
            KvState { gc_request: true, ..st },
            st.oldest,
            0,
        ),
        !lookup::has_two_empty(st.geo, d),
        ring::on_walk(st.geo, o, t),
        db::is_sector(st.geo, s),
        d[s].dirty == SectorDirtyStatus::Gc,
        ring::dist(st.geo, o, s) >= t,
    ensures
        ({
            let st1 = model::resume_gc(st, ring::at(st.geo, o, t), t);
            let (d1, q1) = out;
            &&& st1 == (KvState { m: st1.m, oldest: st1.oldest, ..st })
            &&& resuming(KvState { gc_request: true, ..st1 }, d1, q1)
            &&& same_alive(st.geo, d, q, d1, q1)
            &&& all_clean(st.geo, d1)
            &&& q1.put is None || q1.put == q.put
            &&& still_waits(d, q, d1, q1)
            &&& q1.del matches Some((b, j)) ==> !dirty(d[b])
            &&& lookup::has_empty(st.geo, d1)
        }),
    decreases st.geo.max - t,
{
    let geo = st.geo;
    let at = ring::at(geo, o, t);
    ring::lemma_walk(geo, o, t);
    image::lemma_head(st.m, geo, d, at);
    let info = model::sector_head(st.m, at);
    lookup::lemma_next(geo, o, t, info);
    if d[at].dirty == SectorDirtyStatus::Gc {
        assert(!all_clean(geo, d)) by {
            assert(dirty(d[s]));
        }
        let (d1, q1) = lemma_gc_on(KvState { gc_request: true, ..st }, d, q);
        let st1 = model::gc(KvState { gc_request: true, ..st }, geo.max);
        if t + geo.sec < geo.max {
            assert(gc::uncollected(geo, d1)) by {
                assert forall|x: int| db::is_sector(geo, x) implies (#[trigger] d1[x]).dirty
                    != SectorDirtyStatus::Gc by {
                    assert(!dirty(d1[x]));
                }
            }
            open::lemma_nothing_to_resume(st1, d1, o, t + geo.sec);
        }
        (d1, q1)
    } else {
        ring::lemma_ahead(geo, o, t, s);
        ring::lemma_dist(geo, o, s);
        lemma_resume(st, d, q, o, t + geo.sec, s)
    }
}

/// Opening a database whose garbage collection was interrupted finishes it.
pub proof fn lemma_open_interrupted(
    m: Medium,
    geo: Geo,
    d: Map<int, Sect>,
    q: Pending,
    s: int,
    defaults: Seq<(Seq<u8>, Seq<u8>)>,
    fixed: bool,
) -> (d1: Map<int, Sect>)
    requires
        image::holds_image(m, geo, d),
        m.budget is None,
        gc::unique(geo, d),
        recover::pends(geo, d, q),
        q.del matches Some((b, j)) ==> dirty(d[b]),
        db::is_sector(geo, s),
        d[s].dirty == SectorDirtyStatus::Gc,
        !lookup::has_two_empty(geo, d),
        lookup::has_empty(geo, d) || first_moves_out(
            KvState { gc_request: true, ..opening(m, geo, defaults, fixed) },
            opening(m, geo, defaults, fixed).oldest,
            0,
        ),
    ensures
        ({
            let (st1, r) = model::open_db(m, geo, defaults, fixed);
            &&& r is Ok
            &&& st1.geo == geo
            &&& laws::fair(st1, d1)
            &&& gc::uncollected(geo, d1)
            &&& same_alive(geo, d, q, d1, (Pending { del: None, put: None }))
        }),
{
    reveal(model::load);
    ring::lemma_first(geo, 0);
    assert(open::patched(m, geo, d));
    open::lemma_oldest(m, geo, d, 0, SectorStoreStatus::Unused, 0);
    let oldest = model::oldest_from(m, geo, 0, 0, SectorStoreStatus::Unused, 0);
    ring::lemma_first(geo, oldest);
    open::lemma_headers_ok(m, geo, d, fixed, oldest, 0);
    let st0 = KvState {
        m,
        geo,
        oldest,
        ready: false,
        fixed,
        gc_request: false,
        recovering: true,
        defaults,
    };
    ring::lemma_dist(geo, oldest, s);
    let (d1, q1) = lemma_resume(st0, d, q, oldest, 0, s);
    let st3 = model::resume_gc(st0, oldest, 0);
    lemma_clean_uncollected(geo, d1);
    let d2 = lemma_pass(st3, d1, q1);
    let st4 = model::recover_from(st3, st3.oldest, 0);
    assert(model::recover_rounds(st3, geo.max) == st4);
    db::lemma_geo(geo);
    vstd::arithmetic::div_mod::lemma_div_non_zero(geo.max, geo.sec);
    lemma_alive_trans(geo, d, q, d1, q1, d2, Pending { del: None, put: None });
    d2
}

// ------------------------------------------------------------- where nothing is resumed

/// Garbage is not collected where two sectors are empty.
proof fn lemma_gc_idle(st: KvState, d: Map<int, Sect>)
    requires
        image::holds_image(st.m, st.geo, d),
        db::is_sector(st.geo, st.oldest),
        lookup::has_two_empty(st.geo, d),
    ensures
        model::gc(st, st.geo.max) == (KvState { gc_request: false, ..st }),
{
    reveal(model::gc);
    let geo = st.geo;
    let o = st.oldest;
    ring::lemma_first(geo, o);
    lemma_empties(st.m, geo, d, o, 0, 0, 0);
    let (a, b) = choose|a: int, b: int|
        #![trigger d[a], d[b]]
        a != b && db::is_sector(geo, a) && db::is_sector(geo, b) && d[a].store
            == SectorStoreStatus::Empty && d[b].store == SectorStoreStatus::Empty;
    ring::lemma_dist(geo, o, a);
    ring::lemma_dist(geo, o, b);
    assert(lookup::two_ahead(geo, d, o, 0, SectorStoreStatus::Empty)) by {
        assert(d[a].store == SectorStoreStatus::Empty && d[b].store == SectorStoreStatus::Empty);
    }
}

/// An interrupted collection is left alone where two sectors are empty.
proof fn lemma_resume_idle(st: KvState, d: Map<int, Sect>, o: int, t: int)
    requires
        image::holds_image(st.m, st.geo, d),
        db::is_sector(st.geo, st.oldest),
        !st.gc_request,
        lookup::has_two_empty(st.geo, d),
        ring::on_walk(st.geo, o, t),
    ensures
        model::resume_gc(st, ring::at(st.geo, o, t), t) == st,
    decreases st.geo.max - t,
{
    let geo = st.geo;
    let at = ring::at(geo, o, t);
    ring::lemma_walk(geo, o, t);
    image::lemma_head(st.m, geo, d, at);
    lookup::lemma_next(geo, o, t, model::sector_head(st.m, at));
    lemma_gc_idle(KvState { gc_request: true, ..st }, d);
    if t + geo.sec < geo.max {
        lemma_resume_idle(st, d, o, t + geo.sec);
    }
}

/// Where two sectors are empty there is room for the record that waits to be deleted.
proof fn lemma_can_return(m: Medium, geo: Geo, d: Map<int, Sect>, q: Pending)
    requires
        image::holds_image(m, geo, d),
        recover::pends(geo, d, q),
        lookup::has_two_empty(geo, d),
    ensures
        recover::can_return(geo, d, q),
        lookup::has_empty(geo, d),
{
    let (e, f) = choose|a: int, b: int|
        #![trigger d[a], d[b]]
        a != b && db::is_sector(geo, a) && db::is_sector(geo, b) && d[a].store
            == SectorStoreStatus::Empty && d[b].store == SectorStoreStatus::Empty;
    assert(d[e].store == SectorStoreStatus::Empty && d[f].store == SectorStoreStatus::Empty);
    match q.del {
        Some((b, j)) => {
            let r = d[b].recs[j];
            assert(image::sector_at(m.bytes, geo, b, d[b]));
            image::lemma_place(m.bytes, geo, b, d[b], j);
            image::lemma_open_sector(m.bytes, geo, b, d[b]);
            assert(image::sector_at(m.bytes, geo, e, d[e]));
            image::lemma_open_sector(m.bytes, geo, e, d[e]);
            assert(image::span(d[e].recs) == 0);
            assert(lookup::can_take(
                geo,
                d,
                e,
                SectorStoreStatus::Empty,
                image::body(r),
                false,
            ));
        },
        None => {},
    }
}

/// What comes back is what was alive.
proof fn lemma_back_alive(geo: Geo, d: Map<int, Sect>, q: Pending, d1: Map<int, Sect>)
    requires
        q.del matches Some((b, j)) ==> recover::came_back(geo, d, b, j, d1),
        q.del is None ==> gc::same_live(geo, d, d1),
    ensures
        same_alive(geo, d, q, d1, (Pending { del: None, put: None })),
{
    let none = Pending { del: None, put: None };
    assert forall|name: Seq<u8>, v: Seq<u8>| #[trigger]
        alive(geo, d1, none, name, v) <==> alive(geo, d, q, name, v) by {
        match q.del {
            Some((b, j)) => {
                let r = d[b].recs[j];
                assert(gc::has_live(geo, d1, name, v) <==> gc::has_live(geo, d, name, v) || (name
                    == r.name && v == r.value && !recover::known(geo, d, r.name)));
            },
            None => {
                assert(gc::has_live(geo, d1, name, v) <==> gc::has_live(geo, d, name, v));
            },
        }
    }
}

// ------------------------------------------------------ where there is no room at first

/// Whether there is no room for the record of `q` that waits to be deleted.
pub open spec fn stuck(geo: Geo, d: Map<int, Sect>, q: Pending) -> bool {
    &&& q.del matches Some((b, j)) && !recover::has_room(
        geo,
        d,
        image::body(d[b].recs[j]),
    )
    &&& recover::pends(geo, d, q)
}

/// Trying to bring back a record for which there is no room asks for garbage collection.
proof fn lemma_no_room(st: KvState, d: Map<int, Sect>, q: Pending, b: int, j: int, n: Node)
    requires
        recover::recovering(st, d),
        stuck(st.geo, d, q),
        q.del == Some((b, j)),
        lookup::shown(d, b, j, n),
    ensures
        ({
            let (st1, r) = model::move_node(st, n);
            &&& r is Err
            &&& st1 == (KvState { m: st1.m, gc_request: true, ..st })
            &&& image::read_only(st.m, st1.m, st.geo, d)
        }),
{
    reveal(model::move_node);
    let geo = st.geo;
    let len = image::body(d[b].recs[j]);
    assert(d[b].recs[j].status == KvStatus::PreDelete);
    lookup::lemma_find_room(st, d, len);
    let (st1, slot) = model::find_room(st, len);
    assert(slot is None) by {
        match slot {
            Some(info) => {
                let t = choose|a: int| #[trigger] lookup::slot_in(geo, d, a, len, false, info);
                assert(lookup::slot_in(geo, d, t, len, false, info));
            },
            None => {},
        }
    }
    assert(!lookup::has_two_empty(geo, d)) by {
        if lookup::has_two_empty(geo, d) {
            lemma_can_return(st.m, geo, d, q);
        }
    }
}

/// What a recovery pass that stops at a record that there is no room for makes of the image
/// `d` with the unfinished records `q`.
pub open spec fn still_stuck(
    geo: Geo,
    d: Map<int, Sect>,
    q: Pending,
    d1: Map<int, Sect>,
    q1: Pending,
) -> bool {
    &&& stuck(geo, d1, q1)
    &&& q1.del == q.del
    &&& still_waits(d, q, d1, q1)
    &&& forall|x: int| (#[trigger] d1[x]).dirty == d[x].dirty
    &&& same_alive(geo, d, q, d1, q1)
    &&& gc::uncollected(geo, d) ==> gc::uncollected(geo, d1)
}

/// A record that there is no room for once another one is marked as bad.
proof fn lemma_stuck_spoil(st: KvState, d: Map<int, Sect>, q: Pending, a: int, l: int)
    requires
        recover::recovering(st, d),
        stuck(st.geo, d, q),
        q.put == Some((a, l)),
    ensures
        still_stuck(st.geo, d, q, recover::spoilt(d, a, l), Pending { put: None, ..q }),
{
    let geo = st.geo;
    let (b, j) = q.del.unwrap();
    let d1 = recover::spoilt(d, a, l);
    let q1 = Pending { put: None, ..q };
    recover::lemma_spoil(st, d, q, a, l);
    assert(d1[b].recs[j].name == d[b].recs[j].name);
    assert(d1[b].dirty == d[b].dirty);
    recover::lemma_as_roomy(geo, d, d1, image::body(d[b].recs[j]));
    lemma_alive_same(geo, d, q, d1, q1);
}

/// The records of a sector up to the one that there is no room for.
#[verifier::rlimit(60)]
proof fn lemma_stuck_in(
    st: KvState,
    d: Map<int, Sect>,
    q: Pending,
    at: int,
    info: SecInfo,
    i: int,
    n: Node,
) -> (out: (Map<int, Sect>, Pending))
    requires
        recover::recovering(st, d),
        stuck(st.geo, d, q),
        db::is_sector(st.geo, at),
        info.at == at,
        info.store == d[at].store,
        0 <= i < d[at].recs.len(),
        n.at == image::place(at, d[at].recs, i),
        n.name.len() == KV_NAME_MAX,
    ensures
        ({
            let (st1, stop) = model::recover_in_sector(st, info, n);
            let (d1, q1) = out;
            &&& stop == recover::here(q.del, at, i)
            &&& st1 == (KvState { m: st1.m, gc_request: stop, ..st })
            &&& recover::recovering((KvState { gc_request: false, ..st1 }), d1)
            &&& still_stuck(st.geo, d, q, d1, q1)
            &&& q1.put == q.put || q1.put is None
            &&& !stop && recover::here(q.put, at, i) ==> q1.put is None
        }),
    decreases d[at].recs.len() - i,
{
    let geo = st.geo;
    let recs = d[at].recs;
    image::lemma_step(st.m, geo, d, at, info, i, n);
    let m1 = model::after_read(st.m, geo, n.at);
    let n1 = model::read_node(st.m, geo, n);
    let sta = KvState { m: m1, ..st };
    assert(recs[i].status == KvStatus::PreDelete <==> q.del == Some((at, i)));
    assert(recs[i].status == KvStatus::PreWrite <==> q.put == Some((at, i)));
    lemma_alive_same(geo, d, q, d, q);
    if q.del == Some((at, i)) {
        lemma_no_room(sta, d, q, at, i, n1);
        (d, q)
    } else if q.put == Some((at, i)) {
        lemma_stuck_spoil(sta, d, q, at, i);
        recover::lemma_spoil(sta, d, q, at, i);
        let d1 = recover::spoilt(d, at, i);
        let q1 = Pending { put: None, ..q };
        let st1 = KvState { m: flash::put_status(m1, n.at, 5, true), ..sta };
        recover::lemma_onward(st1, d, d1, at, info, i, n1);
        if i + 1 < recs.len() {
            let (d2, q2) = lemma_stuck_in(
                st1,
                d1,
                q1,
                at,
                info,
                i + 1,
                Node { at: image::place(at, d1[at].recs, i + 1), ..n1 },
            );
            lemma_alive_trans(geo, d, q, d1, q1, d2, q2);
            (d2, q2)
        } else {
            (d1, q1)
        }
    } else if i + 1 < recs.len() {
        lemma_stuck_in(
            sta,
            d,
            q,
            at,
            info,
            i + 1,
            Node { at: image::place(at, recs, i + 1), ..n1 },
        )
    } else {
        (d, q)
    }
}

/// A recovery pass up to the record that there is no room for.
#[verifier::rlimit(60)]
proof fn lemma_stuck_from(st: KvState, d: Map<int, Sect>, q: Pending, o: int, t: int) -> (out: (
    Map<int, Sect>,
    Pending,
))
    requires
        recover::recovering(st, d),
        stuck(st.geo, d, q),
        ring::on_walk(st.geo, o, t),
        recover::ahead(st.geo, o, t, q),
    ensures
        ({
            let st1 = model::recover_from(st, ring::at(st.geo, o, t), t);
            let (d1, q1) = out;
            &&& st1 == (KvState { m: st1.m, gc_request: true, ..st })
            &&& recover::recovering((KvState { gc_request: false, ..st1 }), d1)
            &&& still_stuck(st.geo, d, q, d1, q1)
        }),
    decreases st.geo.max - t,
{
    let geo = st.geo;
    let at = ring::at(geo, o, t);
    let (b, j) = q.del.unwrap();
    ring::lemma_walk(geo, o, t);
    image::lemma_head(st.m, geo, d, at);
    let s = model::sector_head(st.m, at);
    assert(image::sector_at(st.m.bytes, geo, at, d[at]));
    image::lemma_open_sector(st.m.bytes, geo, at, d[at]);
    lookup::lemma_next(geo, o, t, s);
    let n0 = Node { at: at + 16, ..model::blank_node() };
    let some = d[at].recs.len() > 0;
    assert(some == model::has_nodes(s));
    ring::lemma_ahead(geo, o, t, b);
    ring::lemma_dist(geo, o, b);
    match q.put {
        Some((a, l)) => {
            ring::lemma_ahead(geo, o, t, a);
            ring::lemma_dist(geo, o, a);
        },
        None => {},
    }
    lemma_alive_same(geo, d, q, d, q);
    let (d1, q1) = if some {
        assert(image::place(at, d[at].recs, 0) == at + 16);
        lemma_stuck_in(st, d, q, at, s, 0, n0)
    } else {
        (d, q)
    };
    if b != at {
        let st1 = if some {
            model::recover_in_sector(st, s, n0).0
        } else {
            st
        };
        let (d2, q2) = lemma_stuck_from(st1, d1, q1, o, t + geo.sec);
        lemma_alive_trans(geo, d, q, d1, q1, d2, q2);
        (d2, q2)
    } else {
        (d1, q1)
    }
}

/// The length of the record that waits to be deleted, if one does.
pub open spec fn waiting_len(d: Map<int, Sect>, q: Pending) -> int {
    match q.del {
        Some((b, j)) => image::body(d[b].recs[j]),
        None => 0,
    }
}

/// A recovery pass for which there is room finishes what is unfinished.
proof fn lemma_pass(st: KvState, d: Map<int, Sect>, q: Pending) -> (d1: Map<int, Sect>)
    requires
        recover::recovering(st, d),
        recover::pends(st.geo, d, q),
        recover::can_return(st.geo, d, q),
    ensures
        ({
            let st1 = model::recover_from(st, st.oldest, 0);
            &&& st1 == (KvState { m: st1.m, ..st })
            &&& laws::fair(st1, d1)
            &&& same_alive(st.geo, d, q, d1, (Pending { del: None, put: None }))
            &&& gc::uncollected(st.geo, d) ==> gc::uncollected(st.geo, d1)
            &&& gc::within(st.geo, d, d1, waiting_len(d, q))
        }),
{
    let geo = st.geo;
    ring::lemma_first(geo, st.oldest);
    recover::lemma_all_ahead(geo, d, st.oldest, q);
    let d1 = recover::lemma_recover_from(st, d, q, st.oldest, 0);
    assert(gc::at_rest(geo, d1)) by {
        assert forall|a: int, j: int|
            db::is_sector(geo, a) && 0 <= j < d1[a].recs.len() implies (
        #[trigger] d1[a].recs[j]).status != KvStatus::PreDelete && d1[a].recs[j].status
            != KvStatus::PreWrite by {
            let r = d1[a].recs[j];
        }
    }
    if q.del is None {
        recover::lemma_roomy_within(geo, d, d1);
    }
    lemma_back_alive(geo, d, q, d1);
    d1
}

/// Where room is found for the record that waits to be deleted it can return.
proof fn lemma_found_returns(st: KvState, d: Map<int, Sect>, q: Pending)
    requires
        image::holds_image(st.m, st.geo, d),
        db::is_sector(st.geo, st.oldest),
        !st.gc_request,
        q.del is Some,
        model::find_room(st, waiting_len(d, q)).1 is Some,
    ensures
        recover::can_return(st.geo, d, q),
{
    let geo = st.geo;
    let size = waiting_len(d, q);
    lookup::lemma_find_room(st, d, size);
    let info = model::find_room(st, size).1.unwrap();
    let t = choose|a: int| #[trigger] lookup::slot_in(geo, d, a, size, false, info);
    assert(lookup::slot_in(geo, d, t, size, false, info));
}

/// Recovery passes where collecting garbage is not to be resumed: the record that waits to be
/// deleted comes back at once, or once garbage was collected.
proof fn lemma_rounds(st: KvState, d: Map<int, Sect>, q: Pending) -> (d1: Map<int, Sect>)
    requires
        recover::recovering(st, d),
        recover::pends(st.geo, d, q),
        gc::uncollected(st.geo, d) || lookup::has_two_empty(st.geo, d),
        ({
            let again = model::gc(model::recover_from(st, st.oldest, 0), st.geo.max);
            q.del matches Some((b, j)) ==> {
                ||| recover::can_return(st.geo, d, q)
                ||| dirty(d[b])
                ||| model::find_room(again, waiting_len(d, q)).1 is Some
            }
        }),
    ensures
        ({
            let st1 = model::recover_rounds(st, st.geo.max);
            &&& st1 == (KvState { m: st1.m, oldest: st1.oldest, ..st })
            &&& laws::fair(st1, d1)
            &&& same_alive(st.geo, d, q, d1, (Pending { del: None, put: None }))
            &&& gc::uncollected(st.geo, d) ==> gc::uncollected(st.geo, d1)
            &&& recover::can_return(st.geo, d, q) ==> gc::within(
                st.geo,
                d,
                d1,
                waiting_len(d, q),
            )
        }),
{
    let geo = st.geo;
    let oldest = st.oldest;
    db::lemma_geo(geo);
    if recover::can_return(geo, d, q) {
        let d1 = lemma_pass(st, d, q);
        assert(model::recover_rounds(st, geo.max) == model::recover_from(st, oldest, 0));
        d1
    } else {
        let (b, j) = q.del.unwrap();
        if lookup::has_two_empty(geo, d) {
            lemma_can_return(st.m, geo, d, q);
        }
        ring::lemma_first(geo, oldest);
        recover::lemma_all_ahead(geo, d, oldest, q);
        let (da, qa) = lemma_stuck_from(st, d, q, oldest, 0);
        let st1 = model::recover_from(st, oldest, 0);
        assert(!lookup::has_two_empty(geo, da)) by {
            if lookup::has_two_empty(geo, da) {
                lemma_can_return(st1.m, geo, da, qa);
            }
        }
        let (d1, q1) = lemma_gc_on(st1, da, qa);
        let st2 = model::gc(st1, geo.max);
        assert(recover::can_return(geo, d1, q1)) by {
            if q1.del is Some {
                assert(da[b].dirty == d[b].dirty);
                assert(waiting_len(d1, q1) == waiting_len(d, q));
                lemma_found_returns(st2, d1, q1);
            }
        }
        let d2 = lemma_pass(st2, d1, q1);
        let st3 = model::recover_from(st2, st2.oldest, 0);
        assert(model::recover_rounds(st2, geo.max - 1) == st3);
        assert(model::recover_rounds(st, geo.max) == model::recover_rounds(st2, geo.max - 1));
        lemma_clean_uncollected(geo, d1);
        lemma_alive_trans(geo, d, q, da, qa, d1, q1);
        lemma_alive_trans(geo, d, q, d1, q1, d2, Pending { del: None, put: None });
        d2
    }
}

/// Where no sector is dirty none is being collected.
proof fn lemma_clean_uncollected(geo: Geo, d: Map<int, Sect>)
    requires
        all_clean(geo, d),
    ensures
        gc::uncollected(geo, d),
{
    assert forall|x: int| db::is_sector(geo, x) implies (#[trigger] d[x]).dirty
        != SectorDirtyStatus::Gc by {
        assert(!dirty(d[x]));
    }
}

/// The database once opening has resumed the collection of garbage.
pub open spec fn resumed(st: KvState) -> KvState {
    model::resume_gc(st, st.oldest, 0)
}

/// The database once opening has collected garbage for a record that a recovery pass found no
/// room for.
pub open spec fn collected(st: KvState) -> KvState {
    model::gc(model::recover_from(resumed(st), resumed(st).oldest, 0), st.geo.max)
}

/// Whether opening the database `st` brings back the record that waits to be deleted: its
/// sector is dirty and gets collected, or there is room for it once collecting garbage was
/// resumed, or once garbage was collected for it.
pub open spec fn brings_back(st: KvState, d: Map<int, Sect>, q: Pending) -> bool {
    q.del matches Some((b, j)) ==> {
        ||| dirty(d[b])
        ||| model::find_room(resumed(st), waiting_len(d, q)).1 is Some
        ||| model::find_room(collected(st), waiting_len(d, q)).1 is Some
    }
}

/// What opening does once the sector headers are in order: it resumes the collection of garbage
/// if a power loss interrupted it, and finishes what is unfinished.
pub proof fn lemma_rest(st: KvState, d: Map<int, Sect>, q: Pending) -> (d1: Map<int, Sect>)
    requires
        recover::recovering(st, d),
        recover::pends(st.geo, d, q),
        brings_back(st, d, q),
    ensures
        ({
            let st1 = model::recover_rounds(resumed(st), st.geo.max);
            &&& st1 == (KvState { m: st1.m, oldest: st1.oldest, ..st })
            &&& laws::fair(st1, d1)
            &&& same_alive(st.geo, d, q, d1, (Pending { del: None, put: None }))
            &&& gc::uncollected(st.geo, d) ==> gc::uncollected(st.geo, d1)
            &&& gc::uncollected(st.geo, d) && recover::can_return(st.geo, d, q) ==> gc::within(
                st.geo,
                d,
                d1,
                waiting_len(d, q),
            )
        }),
{
    let geo = st.geo;
    let oldest = st.oldest;
    ring::lemma_first(geo, oldest);
    if gc::uncollected(geo, d) || lookup::has_two_empty(geo, d) {
        if gc::uncollected(geo, d) {
            open::lemma_nothing_to_resume(st, d, oldest, 0);
        } else {
            lemma_resume_idle(st, d, oldest, 0);
        }
        assert(resumed(st) == st);
        if q.del is Some && model::find_room(st, waiting_len(d, q)).1 is Some {
            lemma_found_returns(st, d, q);
        }
        lemma_rounds(st, d, q)
    } else {
        let s = choose|x: int|
            db::is_sector(geo, x) && (#[trigger] d[x]).dirty == SectorDirtyStatus::Gc;
        ring::lemma_dist(geo, oldest, s);
        let (d1, q1) = lemma_resume(st, d, q, oldest, 0, s);
        let st1 = resumed(st);
        lemma_clean_uncollected(geo, d1);
        if q1.del is Some {
            assert(waiting_len(d1, q1) == waiting_len(d, q));
            if model::find_room(st1, waiting_len(d1, q1)).1 is Some {
                lemma_found_returns(st1, d1, q1);
            }
        }
        let d2 = lemma_rounds(st1, d1, q1);
        lemma_alive_trans(geo, d, q, d1, q1, d2, Pending { del: None, put: None });
        d2
    }
}

/// The database that opening starts with.
pub open spec fn opening(
    m: Medium,
    geo: Geo,
    defaults: Seq<(Seq<u8>, Seq<u8>)>,
    fixed: bool,
) -> KvState {
    KvState {
        m,
        geo,
        oldest: model::oldest_from(m, geo, 0, 0, SectorStoreStatus::Unused, 0),
        ready: false,
        fixed,
        gc_request: false,
        recovering: true,
        defaults,
    }
}

/// Opening a database with unfinished records finishes them.
pub proof fn lemma_open_left(
    m: Medium,
    geo: Geo,
    d: Map<int, Sect>,
    q: Pending,
    defaults: Seq<(Seq<u8>, Seq<u8>)>,
    fixed: bool,
) -> (d1: Map<int, Sect>)
    requires
        image::holds_image(m, geo, d),
        m.budget is None,
        gc::unique(geo, d),
        lookup::has_empty(geo, d),
        recover::pends(geo, d, q),
        brings_back(opening(m, geo, defaults, fixed), d, q),
    ensures
        ({
            let (st1, r) = model::open_db(m, geo, defaults, fixed);
            &&& r is Ok
            &&& st1.geo == geo
            &&& st1.ready
            &&& laws::fair(st1, d1)
            &&& same_alive(geo, d, q, d1, (Pending { del: None, put: None }))
            &&& gc::uncollected(geo, d) ==> gc::uncollected(geo, d1)
            &&& gc::uncollected(geo, d) && recover::can_return(geo, d, q) ==> gc::within(
                geo,
                d,
                d1,
                waiting_len(d, q),
            )
        }),
{
    reveal(model::load);
    ring::lemma_first(geo, 0);
    assert(open::patched(m, geo, d));
    open::lemma_oldest(m, geo, d, 0, SectorStoreStatus::Unused, 0);
    let st0 = opening(m, geo, defaults, fixed);
    ring::lemma_first(geo, st0.oldest);
    open::lemma_headers_ok(m, geo, d, fixed, st0.oldest, 0);
    db::lemma_geo(geo);
    vstd::arithmetic::div_mod::lemma_div_non_zero(geo.max, geo.sec);
    lemma_rest(st0, d, q)
}

} // verus!
