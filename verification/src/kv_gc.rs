//! Garbage collection of the key-value database: it moves the live records of dirty
//! sectors and loses none.
use vstd::prelude::*;

use crate::db;
use crate::db::Geo;
use crate::def::{KvStatus, SectorDirtyStatus, SectorStoreStatus, KV_NAME_MAX};
use crate::flash;
use crate::kv_change as change;
use crate::kv_image as image;
use crate::kv_image::{Rec, Sect};
use crate::kv_iter as iter;
use crate::kv_lookup as lookup;
use crate::kv_model as model;
use crate::kv_model::{KvState, Node, SecInfo, SECTOR_NOT_COMBINED};
use crate::ring;
use crate::storage::Medium;

verus! {

// ----------------------------------------------------------------------- what is live

/// Whether the `j`th record of the sector at `a` is live.
pub open spec fn live(geo: Geo, d: Map<int, Sect>, a: int, j: int) -> bool {
    &&& db::is_sector(geo, a)
    &&& 0 <= j < d[a].recs.len()
    &&& d[a].recs[j].sound
    &&& d[a].recs[j].status == KvStatus::Write
}

/// Whether the `j`th record of the sector at `a` is live with this name and value.
pub open spec fn live_as(
    geo: Geo,
    d: Map<int, Sect>,
    a: int,
    j: int,
    name: Seq<u8>,
    value: Seq<u8>,
) -> bool {
    live(geo, d, a, j) && d[a].recs[j].name == name && d[a].recs[j].value == value
}

/// Whether some record is live with this name and value.
pub open spec fn has_live(geo: Geo, d: Map<int, Sect>, name: Seq<u8>, value: Seq<u8>) -> bool {
    exists|a: int, j: int| live_as(geo, d, a, j, name, value)
}

/// Whether two images hold the same live names and values.
pub open spec fn same_live(geo: Geo, d: Map<int, Sect>, d1: Map<int, Sect>) -> bool {
    forall|name: Seq<u8>, value: Seq<u8>| #[trigger]
        has_live(geo, d1, name, value) <==> has_live(geo, d, name, value)
}

/// Whether no two live records have the same name.
pub open spec fn unique(geo: Geo, d: Map<int, Sect>) -> bool {
    forall|a: int, j: int, b: int, k: int|
        #![trigger live(geo, d, a, j), live(geo, d, b, k)]
        live(geo, d, a, j) && live(geo, d, b, k) && d[a].recs[j].name == d[b].recs[k].name
            ==> a == b && j == k
}

/// Whether no record waits to be deleted or written.
pub open spec fn at_rest(geo: Geo, d: Map<int, Sect>) -> bool {
    forall|a: int, j: int|
        db::is_sector(geo, a) && 0 <= j < d[a].recs.len() ==> (#[trigger] d[a].recs[j]).status
            != KvStatus::PreDelete && d[a].recs[j].status != KvStatus::PreWrite
}

/// Whether no sector is being collected.
pub open spec fn uncollected(geo: Geo, d: Map<int, Sect>) -> bool {
    forall|a: int| db::is_sector(geo, a) ==> (#[trigger] d[a]).dirty != SectorDirtyStatus::Gc
}

// --------------------------------------------------------------------- moving a record

/// Whether a sector other than `s` is clean and has room for `need` bytes.
pub open spec fn reserve(geo: Geo, d: Map<int, Sect>, s: int, need: int) -> bool {
    exists|t: int| reserve_in(geo, d, s, need, t)
}

/// Whether the sector at `t`, other than `s`, is clean and has room for `need` bytes.
pub open spec fn reserve_in(geo: Geo, d: Map<int, Sect>, s: int, need: int, t: int) -> bool {
    &&& db::is_sector(geo, t)
    &&& t != s
    &&& d[t].dirty == SectorDirtyStatus::False
    &&& d[t].store == SectorStoreStatus::Empty || d[t].store == SectorStoreStatus::Using
    &&& 16 + image::span(d[t].recs) + need + 88 < geo.sec
}

/// The image after the `i`th record of the sector at `s` was moved to the sector at `t`.
pub open spec fn moved(d: Map<int, Sect>, s: int, i: int, t: int) -> Map<int, Sect> {
    let r = d[s].recs[i];
    d.insert(s, change::struck(d[s], i, KvStatus::Deleted)).insert(
        t,
        change::appended(d[t], change::live_rec(r.name, r.value)),
    )
}

/// Where a live record of the image after a move stood before it.
pub open spec fn origin(d: Map<int, Sect>, s: int, i: int, t: int, a: int, j: int) -> (int, int) {
    if a == t && j == d[t].recs.len() {
        (s, i)
    } else {
        (a, j)
    }
}

proof fn lemma_origin(geo: Geo, d: Map<int, Sect>, s: int, i: int, t: int, a: int, j: int)
    requires
        s != t,
        db::is_sector(geo, s),
        live(geo, d, s, i),
        live(geo, moved(d, s, i, t), a, j),
    ensures
        ({
            let (b, k) = origin(d, s, i, t, a, j);
            &&& live(geo, d, b, k)
            &&& d[b].recs[k].name == moved(d, s, i, t)[a].recs[j].name
            &&& d[b].recs[k].value == moved(d, s, i, t)[a].recs[j].value
            &&& (a, j) != (s, i)
        }),
{
    let d1 = moved(d, s, i, t);
    if a == t {
        if j < d[t].recs.len() {
            assert(d1[t].recs[j] == d[t].recs[j]);
        }
    } else if a == s {
        if j == i {
            assert(d1[s].recs[i].status == KvStatus::Deleted);
        } else {
            assert(d1[s].recs[j] == d[s].recs[j]);
        }
    }
}

/// A move keeps what is live.
pub proof fn lemma_moved(geo: Geo, d: Map<int, Sect>, s: int, i: int, t: int)
    requires
        s != t,
        db::is_sector(geo, s),
        db::is_sector(geo, t),
        live(geo, d, s, i),
        unique(geo, d),
    ensures
        same_live(geo, d, moved(d, s, i, t)),
        unique(geo, moved(d, s, i, t)),
        at_rest(geo, d) ==> at_rest(geo, moved(d, s, i, t)),
{
    let d1 = moved(d, s, i, t);
    let n = d[t].recs.len() as int;
    assert forall|name: Seq<u8>, value: Seq<u8>| #[trigger]
        has_live(geo, d1, name, value) <==> has_live(geo, d, name, value) by {
        if has_live(geo, d1, name, value) {
            let (a, j) = choose|a: int, j: int| live_as(geo, d1, a, j, name, value);
            lemma_origin(geo, d, s, i, t, a, j);
            let (b, k) = origin(d, s, i, t, a, j);
            assert(live_as(geo, d, b, k, name, value));
        }
        if has_live(geo, d, name, value) {
            let (a, j) = choose|a: int, j: int| live_as(geo, d, a, j, name, value);
            if a == s && j == i {
                assert(d1[t].recs[n] == change::live_rec(d[s].recs[i].name, d[s].recs[i].value));
                assert(live_as(geo, d1, t, n, name, value));
            } else if a == t {
                assert(d1[t].recs[j] == d[t].recs[j]);
                assert(live_as(geo, d1, t, j, name, value));
            } else if a == s {
                assert(d1[s].recs[j] == d[s].recs[j]);
                assert(live_as(geo, d1, s, j, name, value));
            } else {
                assert(live_as(geo, d1, a, j, name, value));
            }
        }
    }
    assert forall|a: int, j: int, b: int, k: int|
        #![trigger live(geo, d1, a, j), live(geo, d1, b, k)]
        live(geo, d1, a, j) && live(geo, d1, b, k) && d1[a].recs[j].name == d1[b].recs[k].name
            implies a == b && j == k by {
        lemma_origin(geo, d, s, i, t, a, j);
        lemma_origin(geo, d, s, i, t, b, k);
        let (a0, j0) = origin(d, s, i, t, a, j);
        let (b0, k0) = origin(d, s, i, t, b, k);
        assert(live(geo, d, a0, j0) && live(geo, d, b0, k0));
    }
    if at_rest(geo, d) {
        assert forall|a: int, j: int| db::is_sector(geo, a) && 0 <= j < d1[a].recs.len() implies (
        #[trigger] d1[a].recs[j]).status != KvStatus::PreDelete && d1[a].recs[j].status
            != KvStatus::PreWrite by {
            if a == t {
                if j < n {
                    assert(d1[t].recs[j] == d[t].recs[j]);
                }
            } else if a == s {
                if j != i {
                    assert(d1[s].recs[j] == d[s].recs[j]);
                }
            } else {
                assert(d1[a].recs[j] == d[a].recs[j]);
            }
        }
    }
}

/// What holds of a database while records are moved.
pub open spec fn moving(st: KvState, d: Map<int, Sect>) -> bool {
    &&& image::holds_image(st.m, st.geo, d)
    &&& st.m.budget is None
    &&& db::is_sector(st.geo, st.oldest)
    &&& st.gc_request
    &&& unique(st.geo, d)
}

/// What holds of a database while garbage is collected.
pub open spec fn collecting(st: KvState, d: Map<int, Sect>) -> bool {
    moving(st, d) && at_rest(st.geo, d)
}

/// Whether `d1` is what collecting the sector at `s` makes of `d` outside of it: the
/// dirty statuses stay, and no sector loses records.
pub open spec fn grown(geo: Geo, d: Map<int, Sect>, d1: Map<int, Sect>, s: int) -> bool {
    &&& d1[s].store == d[s].store
    &&& forall|a: int| db::is_sector(geo, a) ==> (#[trigger] d1[a]).dirty == d[a].dirty
    &&& forall|a: int| db::is_sector(geo, a) && a != s && d[a].recs.len() > 0 ==> (
    #[trigger] d1[a]).recs.len() > 0
}

/// The total length of the live records from the `i`th on.
pub open spec fn live_len(recs: Seq<Rec>, i: int) -> int
    decreases recs.len() - i,
{
    if i < 0 || i >= recs.len() {
        0
    } else if recs[i].sound && recs[i].status == KvStatus::Write {
        image::body(recs[i]) + live_len(recs, i + 1)
    } else {
        live_len(recs, i + 1)
    }
}

/// The length of the live records from the `i`th on depends on these records alone.
proof fn lemma_live_len(recs: Seq<Rec>, recs1: Seq<Rec>, i: int)
    requires
        recs1.len() == recs.len(),
        forall|k: int| 0 <= i <= k < recs.len() ==> #[trigger] recs1[k] == recs[k],
    ensures
        live_len(recs1, i) == live_len(recs, i),
    decreases recs.len() - i,
{
    if 0 <= i < recs.len() {
        assert(recs1[i] == recs[i]);
        lemma_live_len(recs, recs1, i + 1);
    }
}

/// Whether a sector waits to be collected.
pub open spec fn dirty(s: Sect) -> bool {
    s.dirty == SectorDirtyStatus::True || s.dirty == SectorDirtyStatus::Gc
}

/// Whether no garbage is lost: every sector with a deleted record waits to be collected.
pub open spec fn accounted(geo: Geo, d: Map<int, Sect>) -> bool {
    forall|a: int, j: int|
        db::is_sector(geo, a) && 0 <= j < d[a].recs.len() && (#[trigger] d[a].recs[j]).status
            == KvStatus::Deleted ==> dirty(d[a])
}

/// Whether `d1` is what moving live records of `n` bytes out of the sector at `s` may make
/// of `d`: where all records are sound they stay so, and no other sector takes in more, nor
/// counts as full with it.
pub open spec fn filled(geo: Geo, d: Map<int, Sect>, d1: Map<int, Sect>, s: int, n: int) -> bool {
    &&& iter::all_sound(geo, d) ==> iter::all_sound(geo, d1)
    &&& accounted(geo, d) ==> accounted(geo, d1)
    &&& forall|a: int|
        db::is_sector(geo, a) && a != s ==> image::span((#[trigger] d1[a]).recs) <= image::span(
            d[a].recs,
        ) + n && (d1[a].store == d[a].store || (d[a].store == SectorStoreStatus::Empty
            && d1[a].store == SectorStoreStatus::Using))
}

/// Two moves in a row.
proof fn lemma_filled_trans(
    geo: Geo,
    d: Map<int, Sect>,
    d1: Map<int, Sect>,
    d2: Map<int, Sect>,
    s: int,
    n: int,
    n1: int,
)
    requires
        filled(geo, d, d1, s, n),
        filled(geo, d1, d2, s, n1),
    ensures
        filled(geo, d, d2, s, n + n1),
{
    assert forall|a: int| db::is_sector(geo, a) && a != s implies image::span(
        (#[trigger] d2[a]).recs,
    ) <= image::span(d[a].recs) + n + n1 && (d2[a].store == d[a].store || (d[a].store
        == SectorStoreStatus::Empty && d2[a].store == SectorStoreStatus::Using)) by {
        assert(image::span(d1[a].recs) <= image::span(d[a].recs) + n);
    }
}

/// One move.
proof fn lemma_moved_filled(geo: Geo, d: Map<int, Sect>, s: int, i: int, t: int)
    requires
        s != t,
        live(geo, d, s, i),
        dirty(d[s]),
        d[t].store == SectorStoreStatus::Empty || d[t].store == SectorStoreStatus::Using,
    ensures
        filled(geo, d, moved(d, s, i, t), s, image::body(d[s].recs[i])),
{
    let d1 = moved(d, s, i, t);
    let r = d[s].recs[i];
    let new = change::live_rec(r.name, r.value);
    lemma_push_span(d[t].recs, new);
    assert(d1[t].recs == d[t].recs.push(new));
    assert forall|a: int| db::is_sector(geo, a) && a != s implies image::span(
        (#[trigger] d1[a]).recs,
    ) <= image::span(d[a].recs) + image::body(r) && (d1[a].store == d[a].store || (d[a].store
        == SectorStoreStatus::Empty && d1[a].store == SectorStoreStatus::Using)) by {
        if a != t {
            assert(d1[a] == d[a]);
        }
    }
    if iter::all_sound(geo, d) {
        assert forall|a: int, j: int| db::is_sector(geo, a) && 0 <= j < d1[a].recs.len() implies (
        #[trigger] d1[a].recs[j]).sound by {
            if a == t && j == d[t].recs.len() {
                assert(d1[t].recs[j] == new);
            } else {
                assert(d[a].recs[j].sound);
            }
        }
    }
    if accounted(geo, d) {
        assert forall|a: int, j: int|
            db::is_sector(geo, a) && 0 <= j < d1[a].recs.len() && (#[trigger] d1[a].recs[j]).status
                == KvStatus::Deleted implies dirty(d1[a]) by {
            if a != s {
                if a == t && j == d[t].recs.len() {
                    assert(d1[t].recs[j] == new);
                } else {
                    assert(d1[a].recs[j] == d[a].recs[j]);
                    assert(d[a].recs[j].status == KvStatus::Deleted);
                }
            }
        }
    }
}

/// Moving a live record of a sector that is being collected: there is a reserve for it, or it
/// finds room.
pub proof fn lemma_move(st: KvState, d: Map<int, Sect>, s: int, i: int, n: Node, need: int) -> (t:
    int)
    requires
        moving(st, d),
        db::is_sector(st.geo, s),
        d[s].dirty == SectorDirtyStatus::Gc,
        live(st.geo, d, s, i),
        lookup::shown(d, s, i, n),
        image::size(d[s].recs[i]) <= need,
        reserve(st.geo, d, s, need) || model::move_node(st, n).1 is Ok,
    ensures
        ({
            let (st1, r) = model::move_node(st, n);
            let d1 = moved(d, s, i, t);
            &&& st1 == (KvState { m: st1.m, ..st })
            &&& db::is_sector(st.geo, t)
            &&& t != s
            &&& d[t].dirty == SectorDirtyStatus::False
            &&& moving(st1, d1)
            &&& grown(st.geo, d, d1, s)
            &&& filled(st.geo, d, d1, s, image::body(d[s].recs[i]))
            &&& reserve(st.geo, d, s, need) ==> reserve(
                st.geo,
                d1,
                s,
                need - image::size(d[s].recs[i]),
            )
        }),
{
    reveal(model::move_node);
    let geo = st.geo;
    let rec = d[s].recs[i];
    let len = image::body(rec);
    assert(image::sector_at(st.m.bytes, geo, s, d[s]));
    image::lemma_place(st.m.bytes, geo, s, d[s], i);
    // The record is marked as about to be deleted.
    change::lemma_delete_at(st.m, geo, d, s, i, false);
    let m0 = model::delete_at(st.m, geo, n.at, false).0;
    let da = d.insert(s, change::struck(d[s], i, KvStatus::PreDelete));
    // Room is found in another sector.
    let sta = KvState { m: m0, ..st };
    lookup::lemma_find_room(sta, da, len);
    let (st1, slot) = model::find_room(sta, len);
    let t0 = choose|t: int| reserve_in(geo, d, s, need, t);
    assert(slot is Some) by {
        if reserve(geo, d, s, need) {
            assert(reserve_in(geo, d, s, need, t0));
            assert(da[t0] == d[t0]);
            if d[t0].store == SectorStoreStatus::Using {
                assert(lookup::can_take(geo, da, t0, SectorStoreStatus::Using, len, true));
            } else {
                assert(lookup::can_take(geo, da, t0, SectorStoreStatus::Empty, len, true));
            }
        }
    }
    let info = slot.unwrap();
    let t = choose|a: int| #[trigger] lookup::slot_in(geo, da, a, len, true, info);
    assert(lookup::slot_in(geo, da, t, len, true, info));
    assert(t != s) by {
        assert(da[s].dirty == SectorDirtyStatus::Gc);
    }
    assert(da[t] == d[t]);
    // The record is copied there, and then deleted here.
    lemma_struck_place(s, d[s], i, KvStatus::PreDelete, i);
    change::lemma_move_body(st1.m, geo, da, s, i, t, info, n);
    let m2 = model::move_body(st1.m, n, info).0;
    let dc = da.insert(t, change::appended(da[t], change::live_rec(rec.name, rec.value)));
    change::lemma_delete_at(m2, geo, dc, s, i, true);
    let d1 = dc.insert(s, change::struck(dc[s], i, KvStatus::Deleted));
    assert(d1 =~= moved(d, s, i, t)) by {
        assert(d1[s].recs =~= change::struck(d[s], i, KvStatus::Deleted).recs);
    }
    lemma_moved(geo, d, s, i, t);
    lemma_moved_filled(geo, d, s, i, t);
    assert(d1[t].recs == d[t].recs.push(change::live_rec(rec.name, rec.value)));
    // The reserve is there still.
    if reserve(geo, d, s, need) {
        assert(reserve_in(geo, d, s, need, t0));
        assert(reserve_in(geo, d1, s, need - image::size(rec), t0)) by {
            if t == t0 {
                lemma_push_span(d[t].recs, change::live_rec(rec.name, rec.value));
            } else {
                assert(d1[t0] == d[t0]);
            }
        }
    }
    t
}

/// Moving a live record keeps what is live.
proof fn lemma_move_live(st: KvState, d: Map<int, Sect>, s: int, i: int, n: Node, need: int) -> (d1:
    Map<int, Sect>)
    requires
        collecting(st, d),
        db::is_sector(st.geo, s),
        d[s].dirty == SectorDirtyStatus::Gc,
        live(st.geo, d, s, i),
        lookup::shown(d, s, i, n),
        image::size(d[s].recs[i]) <= need,
        reserve(st.geo, d, s, need),
    ensures
        ({
            let (st1, r) = model::move_node(st, n);
            &&& st1 == (KvState { m: st1.m, ..st })
            &&& collecting(st1, d1)
            &&& same_live(st.geo, d, d1)
            &&& grown(st.geo, d, d1, s)
            &&& filled(st.geo, d, d1, s, image::body(d[s].recs[i]))
            &&& d1[s].recs == d[s].recs.update(
                i,
                Rec { status: KvStatus::Deleted, ..d[s].recs[i] },
            )
            &&& reserve(st.geo, d1, s, need - image::size(d[s].recs[i]))
        }),
{
    let t = lemma_move(st, d, s, i, n, need);
    lemma_moved(st.geo, d, s, i, t);
    moved(d, s, i, t)
}

/// Marking a record moves none.
pub proof fn lemma_struck_place(at: int, s: Sect, i: int, st: KvStatus, k: int)
    requires
        0 <= i < s.recs.len(),
        0 <= k <= s.recs.len(),
    ensures
        image::place(at, change::struck(s, i, st).recs, k) == image::place(at, s.recs, k),
{
    image::lemma_reach_same(change::struck(s, i, st).recs, s.recs, k);
}

/// One more record adds its length.
pub proof fn lemma_push_span(recs: Seq<Rec>, r: Rec)
    ensures
        image::span(recs.push(r)) == image::span(recs) + image::size(r),
{
    let n = recs.len() as int;
    image::lemma_reach_same(recs.push(r), recs, n);
}

// ----------------------------------------------------------------- collecting a sector

pub proof fn lemma_reserve_less(geo: Geo, d: Map<int, Sect>, s: int, need: int, less: int)
    requires
        reserve(geo, d, s, need),
        less <= need,
    ensures
        reserve(geo, d, s, less),
{
    let t = choose|t: int| reserve_in(geo, d, s, need, t);
    assert(reserve_in(geo, d, s, less, t));
}

pub proof fn lemma_same_live_trans(
    geo: Geo,
    d0: Map<int, Sect>,
    d1: Map<int, Sect>,
    d2: Map<int, Sect>,
)
    requires
        same_live(geo, d0, d1),
        same_live(geo, d1, d2),
    ensures
        same_live(geo, d0, d2),
{
    assert forall|name: Seq<u8>, value: Seq<u8>| #[trigger]
        has_live(geo, d2, name, value) <==> has_live(geo, d0, name, value) by {
        assert(has_live(geo, d1, name, value) <==> has_live(geo, d0, name, value));
    }
}

/// Where records of the same lengths follow each other, so do their nodes.
pub proof fn lemma_onward(
    bytes: Seq<u8>,
    geo: Geo,
    recs: Seq<Rec>,
    s: int,
    s2: Sect,
    info: SecInfo,
    i: int,
    n: Node,
)
    requires
        image::sector_at(bytes, geo, s, s2),
        bytes.len() <= 0xFFFF_FFFF,
        info.at == s,
        info.store == s2.store,
        0 <= i < recs.len(),
        s2.recs.len() == recs.len(),
        forall|k: int|
            0 <= k < recs.len() ==> image::size(#[trigger] s2.recs[k]) == image::size(recs[k]),
        n.at == image::place(s, recs, i),
        n.len == image::body(s2.recs[i]),
        n.crc_ok == s2.recs[i].sound,
        !n.crc_ok ==> n.status == KvStatus::PreWrite || n.status == KvStatus::ErrHdr,
    ensures
        image::span(s2.recs) == image::span(recs),
        image::reach(s2.recs, i + 1) == image::reach(recs, i) + image::size(recs[i]),
        image::place(s, s2.recs, i + 1) == image::place(s, recs, i + 1),
        model::next_node(bytes, geo, info, n) == (if i + 1 < recs.len() {
            Some(image::place(s, s2.recs, i + 1))
        } else {
            None
        }),
{
    image::lemma_reach_same(s2.recs, recs, i);
    image::lemma_reach_same(s2.recs, recs, i + 1);
    image::lemma_reach_same(s2.recs, recs, recs.len() as int);
    image::lemma_next_node_in(bytes, geo, s, s2, info, i, n);
}

/// What is read of a record of a sector that is being collected.
proof fn lemma_look(st: KvState, d: Map<int, Sect>, s: int, info: SecInfo, i: int, n: Node)
    requires
        collecting(st, d),
        db::is_sector(st.geo, s),
        info.at == s,
        info.store == d[s].store,
        0 <= i < d[s].recs.len(),
        n.at == image::place(s, d[s].recs, i),
        n.name.len() == KV_NAME_MAX,
    ensures
        ({
            let geo = st.geo;
            let r = d[s].recs[i];
            let n1 = model::read_node(st.m, geo, n);
            let st1 = KvState { m: model::after_read(st.m, geo, n.at), ..st };
            &&& collecting(st1, d)
            &&& n1.at == n.at
            &&& n1.len == image::body(r)
            &&& n1.crc_ok == r.sound
            &&& !r.sound ==> n1.status == KvStatus::PreWrite || n1.status == KvStatus::ErrHdr
            &&& n1.name.len() == KV_NAME_MAX
            &&& n1.crc_ok && (n1.status == KvStatus::Write || n1.status == KvStatus::PreDelete)
                <==> live(geo, d, s, i)
            &&& live(geo, d, s, i) ==> lookup::shown(d, s, i, n1)
            &&& n.at < image::place(s, d[s].recs, i + 1) < s + geo.sec
            &&& image::size(r) <= image::span(d[s].recs) - image::reach(d[s].recs, i)
        }),
{
    let geo = st.geo;
    let recs = d[s].recs;
    image::lemma_step(st.m, geo, d, s, info, i, n);
    assert(image::sector_at(st.m.bytes, geo, s, d[s]));
    image::lemma_open_sector(st.m.bytes, geo, s, d[s]);
    image::lemma_reach(recs, i + 1, recs.len() as int);
    assert(recs[i].status != KvStatus::PreDelete);
}

/// One step of collecting a sector.
#[verifier::rlimit(60)]
#[verifier::spinoff_prover]
proof fn lemma_step(st: KvState, d: Map<int, Sect>, s: int, info: SecInfo, i: int, n: Node) -> (d2:
    Map<int, Sect>)
    requires
        collecting(st, d),
        db::is_sector(st.geo, s),
        info.at == s,
        info.store == d[s].store,
        d[s].dirty == SectorDirtyStatus::Gc,
        0 <= i < d[s].recs.len(),
        n.at == image::place(s, d[s].recs, i),
        n.name.len() == KV_NAME_MAX,
        reserve(st.geo, d, s, image::span(d[s].recs) - image::reach(d[s].recs, i)),
    ensures
        ({
            let geo = st.geo;
            let n1 = model::read_node(st.m, geo, n);
            let st1 = KvState { m: model::after_read(st.m, geo, n.at), ..st };
            let st2 = if n1.crc_ok && (n1.status == KvStatus::Write || n1.status
                == KvStatus::PreDelete) {
                model::move_node(st1, n1).0
            } else {
                st1
            };
            &&& st2 == (KvState { m: st2.m, ..st })
            &&& collecting(st2, d2)
            &&& same_live(geo, d, d2)
            &&& grown(geo, d, d2, s)
            &&& filled(
                geo,
                d,
                d2,
                s,
                if live(geo, d, s, i) {
                    image::body(d[s].recs[i])
                } else {
                    0
                },
            )
            &&& d2[s].recs.len() == d[s].recs.len()
            &&& !live(geo, d2, s, i)
            &&& forall|k: int|
                0 <= k < d[s].recs.len() && k != i ==> #[trigger] d2[s].recs[k] == d[s].recs[k]
            &&& reserve(geo, d2, s, image::span(d2[s].recs) - image::reach(d2[s].recs, i + 1))
            &&& model::next_node(st2.m.bytes, geo, info, n1) == (if i + 1 < d[s].recs.len() {
                Some(image::place(s, d2[s].recs, i + 1))
            } else {
                None
            })
            &&& n.at < image::place(s, d2[s].recs, i + 1) < s + geo.sec
            &&& n1.name.len() == KV_NAME_MAX
        }),
{
    let geo = st.geo;
    let recs = d[s].recs;
    let need = image::span(recs) - image::reach(recs, i);
    let len = image::size(recs[i]);
    lemma_look(st, d, s, info, i, n);
    let m1 = model::after_read(st.m, geo, n.at);
    let n1 = model::read_node(st.m, geo, n);
    let sta = KvState { m: m1, ..st };
    let moves = n1.crc_ok && (n1.status == KvStatus::Write || n1.status == KvStatus::PreDelete);
    let stb = if moves {
        model::move_node(sta, n1).0
    } else {
        sta
    };
    let d2 = if moves {
        lemma_move_live(sta, d, s, i, n1, need)
    } else {
        lemma_reserve_less(geo, d, s, need, need - len);
        d
    };
    assert(image::sector_at(stb.m.bytes, geo, s, d2[s]));
    lemma_onward(stb.m.bytes, geo, recs, s, d2[s], info, i, n1);
    d2
}

/// Moving the live records of a sector, from the `i`th record on.
proof fn lemma_evacuate(
    st: KvState,
    d: Map<int, Sect>,
    s: int,
    info: SecInfo,
    i: int,
    n: Node,
) -> (d1: Map<int, Sect>)
    requires
        collecting(st, d),
        db::is_sector(st.geo, s),
        info.at == s,
        info.store == d[s].store,
        d[s].dirty == SectorDirtyStatus::Gc,
        0 <= i < d[s].recs.len(),
        n.at == image::place(s, d[s].recs, i),
        n.name.len() == KV_NAME_MAX,
        reserve(st.geo, d, s, image::span(d[s].recs) - image::reach(d[s].recs, i)),
        forall|j: int| 0 <= j < i ==> !#[trigger] live(st.geo, d, s, j),
    ensures
        ({
            let st1 = model::evacuate(st, info, n);
            &&& st1 == (KvState { m: st1.m, ..st })
            &&& collecting(st1, d1)
            &&& same_live(st.geo, d, d1)
            &&& grown(st.geo, d, d1, s)
            &&& filled(st.geo, d, d1, s, live_len(d[s].recs, i))
            &&& forall|j: int| !#[trigger] live(st.geo, d1, s, j)
        }),
    decreases d[s].recs.len() - i,
{
    let geo = st.geo;
    let d2 = lemma_step(st, d, s, info, i, n);
    let n1 = model::read_node(st.m, geo, n);
    let st1 = KvState { m: model::after_read(st.m, geo, n.at), ..st };
    let st2 = if n1.crc_ok && (n1.status == KvStatus::Write || n1.status == KvStatus::PreDelete) {
        model::move_node(st1, n1).0
    } else {
        st1
    };
    lemma_live_len(d[s].recs, d2[s].recs, i + 1);
    assert forall|j: int| 0 <= j < i + 1 implies !#[trigger] live(geo, d2, s, j) by {
        if j < i {
            assert(d2[s].recs[j] == d[s].recs[j]);
            assert(!live(geo, d, s, j));
        }
    }
    if i + 1 < d[s].recs.len() {
        let n2 = Node { at: image::place(s, d2[s].recs, i + 1), ..n1 };
        let d3 = lemma_evacuate(st2, d2, s, info, i + 1, n2);
        lemma_same_live_trans(geo, d, d2, d3);
        lemma_grown_trans(geo, d, d2, d3, s);
        lemma_filled_trans(
            geo,
            d,
            d2,
            d3,
            s,
            live_len(d[s].recs, i) - live_len(d[s].recs, i + 1),
            live_len(d[s].recs, i + 1),
        );
        d3
    } else {
        assert forall|j: int| !#[trigger] live(geo, d2, s, j) by {}
        d2
    }
}

/// Two steps in a row.
pub proof fn lemma_grown_trans(
    geo: Geo,
    d: Map<int, Sect>,
    d1: Map<int, Sect>,
    d2: Map<int, Sect>,
    s: int,
)
    requires
        grown(geo, d, d1, s),
        grown(geo, d1, d2, s),
    ensures
        grown(geo, d, d2, s),
{
    assert forall|a: int| db::is_sector(geo, a) implies (#[trigger] d2[a]).dirty == d[a].dirty by {
        assert(d1[a].dirty == d[a].dirty);
    }
    assert forall|a: int| db::is_sector(geo, a) && a != s && d[a].recs.len() > 0 implies (
    #[trigger] d2[a]).recs.len() > 0 by {
        assert(d1[a].recs.len() > 0);
    }
}

/// Emptying a sector without live records keeps what is live.
pub proof fn lemma_emptied(geo: Geo, d: Map<int, Sect>, s: int)
    requires
        unique(geo, d),
        at_rest(geo, d),
        forall|j: int| !#[trigger] live(geo, d, s, j),
    ensures
        same_live(geo, d, d.insert(s, change::fresh())),
        iter::all_sound(geo, d) ==> iter::all_sound(geo, d.insert(s, change::fresh())),
        accounted(geo, d) ==> accounted(geo, d.insert(s, change::fresh())),
        unique(geo, d.insert(s, change::fresh())),
        at_rest(geo, d.insert(s, change::fresh())),
{
    let d1 = d.insert(s, change::fresh());
    assert forall|a: int, j: int| #[trigger] live(geo, d1, a, j) implies a != s && live(
        geo,
        d,
        a,
        j,
    ) && d1[a] == d[a] by {
        if a == s {
            assert(d1[s].recs.len() == 0);
        }
    }
    assert forall|name: Seq<u8>, value: Seq<u8>| #[trigger]
        has_live(geo, d1, name, value) <==> has_live(geo, d, name, value) by {
        if has_live(geo, d1, name, value) {
            let (a, j) = choose|a: int, j: int| live_as(geo, d1, a, j, name, value);
            assert(live(geo, d1, a, j));
            assert(live_as(geo, d, a, j, name, value));
        }
        if has_live(geo, d, name, value) {
            let (a, j) = choose|a: int, j: int| live_as(geo, d, a, j, name, value);
            assert(live(geo, d, a, j));
            assert(a != s);
            assert(live_as(geo, d1, a, j, name, value));
        }
    }
    assert forall|a: int, j: int| db::is_sector(geo, a) && 0 <= j < d1[a].recs.len() implies (
    #[trigger] d1[a].recs[j]).status != KvStatus::PreDelete && d1[a].recs[j].status
        != KvStatus::PreWrite by {
        assert(a != s);
        assert(d1[a].recs[j] == d[a].recs[j]);
    }
    if iter::all_sound(geo, d) {
        assert forall|a: int, j: int| db::is_sector(geo, a) && 0 <= j < d1[a].recs.len() implies (
        #[trigger] d1[a].recs[j]).sound by {
            assert(a != s);
            assert(d[a].recs[j].sound);
        }
    }
    if accounted(geo, d) {
        assert forall|a: int, j: int|
            db::is_sector(geo, a) && 0 <= j < d1[a].recs.len() && (#[trigger] d1[a].recs[j]).status
                == KvStatus::Deleted implies dirty(d1[a]) by {
            assert(a != s);
            assert(d[a].recs[j].status == KvStatus::Deleted);
        }
    }
}

/// What holds of a database before and after a sector is collected.
pub open spec fn collectable(st: KvState, d: Map<int, Sect>) -> bool {
    &&& collecting(st, d)
    &&& lookup::has_empty(st.geo, d)
}

/// Marking a dirty sector as being collected: there is a reserve for its records.
pub proof fn lemma_begin(st: KvState, d: Map<int, Sect>, s: int) -> (da: Map<int, Sect>)
    requires
        collectable(st, d),
        db::is_sector(st.geo, s),
        d[s].dirty == SectorDirtyStatus::True || d[s].dirty == SectorDirtyStatus::Gc,
    ensures
        da == d.insert(s, (Sect { dirty: SectorDirtyStatus::Gc, ..d[s] })),
        collecting(KvState { m: flash::put_status(st.m, s + 1, 3, true), ..st }, da),
        same_live(st.geo, d, da),
        iter::all_sound(st.geo, d) ==> iter::all_sound(st.geo, da),
        accounted(st.geo, d) ==> accounted(st.geo, da),
        d[s].recs.len() > 0,
        reserve(st.geo, da, s, image::span(d[s].recs)),
{
    let geo = st.geo;
    assert(image::sector_at(st.m.bytes, geo, s, d[s]));
    image::lemma_open_sector(st.m.bytes, geo, s, d[s]);
    change::lemma_put_dirty(st.m, geo, d, s, SectorDirtyStatus::Gc);
    let da = d.insert(s, Sect { dirty: SectorDirtyStatus::Gc, ..d[s] });
    lemma_same_recs(geo, d, da);
    if accounted(geo, d) {
        assert forall|a: int, j: int|
            db::is_sector(geo, a) && 0 <= j < da[a].recs.len() && (#[trigger] da[a].recs[j]).status
                == KvStatus::Deleted implies dirty(da[a]) by {
            assert(d[a].recs[j].status == KvStatus::Deleted);
        }
    }
    let e = choose|a: int|
        db::is_sector(geo, a) && (#[trigger] d[a]).store == SectorStoreStatus::Empty;
    assert(d[e].store == SectorStoreStatus::Empty);
    assert(e != s);
    assert(da[e] == d[e]);
    assert(image::sector_at(st.m.bytes, geo, e, d[e]));
    image::lemma_open_sector(st.m.bytes, geo, e, d[e]);
    assert(image::span(d[e].recs) == 0);
    assert(reserve_in(geo, da, s, image::span(d[s].recs), e));
    da
}

/// Emptying a sector that is being collected.
pub proof fn lemma_clear(st: KvState, d: Map<int, Sect>, s: int, info: SecInfo) -> (d1: Map<int, Sect>)
    requires
        collecting(st, d),
        db::is_sector(st.geo, s),
        info.at == s,
        info.store == d[s].store,
        d[s].dirty == SectorDirtyStatus::Gc,
        d[s].recs.len() > 0,
        reserve(st.geo, d, s, image::span(d[s].recs)),
    ensures
        ({
            let n0 = Node { at: s + 16, ..model::blank_node() };
            let st1 = model::evacuate(st, info, n0);
            let m2 = model::format(st1.m, st.geo, s, SECTOR_NOT_COMBINED as int).0;
            &&& st1 == (KvState { m: st1.m, ..st })
            &&& collecting(KvState { m: m2, ..st }, d1)
            &&& m2.erases == st1.m.erases.insert((s, st.geo.sec))
            &&& same_live(st.geo, d, d1)
            &&& d1[s] == change::fresh()
            &&& filled(st.geo, d, d1, s, live_len(d[s].recs, 0))
            &&& forall|a: int| db::is_sector(st.geo, a) && a != s ==> (#[trigger] d1[a]).dirty
                == d[a].dirty
        }),
{
    let geo = st.geo;
    let recs = d[s].recs;
    assert(image::reach(recs, 0) == 0);
    assert(image::place(s, recs, 0) == s + 16);
    let n0 = Node { at: s + 16, ..model::blank_node() };
    let db1 = lemma_evacuate(st, d, s, info, 0, n0);
    let st1 = model::evacuate(st, info, n0);
    change::lemma_format(st1.m, geo, db1, s);
    let d1 = db1.insert(s, change::fresh());
    lemma_emptied(geo, db1, s);
    lemma_same_live_trans(geo, d, db1, d1);
    assert forall|a: int| db::is_sector(geo, a) && a != s implies (#[trigger] d1[a]).dirty
        == d[a].dirty by {
        assert(d1[a] == db1[a]);
    }
    d1
}

/// Collecting a sector keeps what is live.
pub proof fn lemma_collect_sector(
    st: KvState,
    d: Map<int, Sect>,
    s: int,
    info: SecInfo,
    free: int,
    last: int,
) -> (d1: Map<int, Sect>)
    requires
        collectable(st, d),
        db::is_sector(st.geo, s),
        image::heads(info, s, d[s]),
        db::is_sector(st.geo, last),
    ensures
        ({
            let (st1, last1, stop) = model::collect_sector(st, info, free, last);
            &&& st1 == (KvState { m: st1.m, oldest: st1.oldest, ..st })
            &&& collectable(st1, d1)
            &&& db::is_sector(st.geo, last1)
            &&& same_live(st.geo, d, d1)
            &&& uncollected(st.geo, d) ==> uncollected(st.geo, d1)
            &&& !dirty(d[s]) ==> d1 == d && last1 == last && !stop
            &&& dirty(d[s]) ==> {
                &&& filled(st.geo, d, d1, s, live_len(d[s].recs, 0))
                &&& d1[s] == change::fresh()
                &&& forall|a: int| db::is_sector(st.geo, a) && a != s ==> (#[trigger] d1[a]).dirty
                    == d[a].dirty
                &&& d1[last].store != SectorStoreStatus::Full && st.geo.sec - 16 - image::span(
                    d1[last].recs,
                ) > free ==> stop
                &&& stop && free >= 0 && d[last].dirty == SectorDirtyStatus::False ==> has_space(
                    st.geo,
                    d1,
                    free - 88,
                )
                &&& last1 == s
            }
            &&& iter::all_sound(st.geo, d) ==> iter::all_sound(st.geo, d1)
            &&& accounted(st.geo, d) ==> accounted(st.geo, d1)
        }),
{
    reveal(model::collect_sector);
    let geo = st.geo;
    if d[s].dirty == SectorDirtyStatus::True || d[s].dirty == SectorDirtyStatus::Gc {
        let da = lemma_begin(st, d, s);
        let sta = KvState { m: flash::put_status(st.m, s + 1, 3, true), ..st };
        let d1 = lemma_clear(sta, da, s, info);
        lemma_same_live_trans(geo, d, da, d1);
        let stb = model::evacuate(sta, info, Node { at: s + 16, ..model::blank_node() });
        let m3 = model::format(stb.m, geo, s, SECTOR_NOT_COMBINED as int).0;
        lookup::lemma_full(m3, geo, d1, last);
        lemma_live_len(d[s].recs, da[s].recs, 0);
        assert(filled(geo, d, d1, s, live_len(d[s].recs, 0))) by {
            assert forall|a: int| db::is_sector(geo, a) && a != s implies image::span(
                (#[trigger] d1[a]).recs,
            ) <= image::span(d[a].recs) + live_len(d[s].recs, 0) && (d1[a].store == d[a].store || (
            d[a].store == SectorStoreStatus::Empty && d1[a].store == SectorStoreStatus::Using)) by {
                assert(da[a] == d[a]);
            }
        }
        assert(last != s ==> d1[last].dirty == da[last].dirty && da[last] == d[last]);
        let stop = model::collect_sector(st, info, free, last).2;
        if stop && free >= 0 && d[last].dirty == SectorDirtyStatus::False {
            assert(d1[s].store == SectorStoreStatus::Empty);
            if d1[last].store == SectorStoreStatus::Using {
                assert(lookup::can_take(geo, d1, last, SectorStoreStatus::Using, free - 88, false));
            } else {
                assert(d1[last].store == SectorStoreStatus::Empty) by {
                    assert(image::sector_at(m3.bytes, geo, last, d1[last]));
                    image::lemma_open_sector(m3.bytes, geo, last, d1[last]);
                }
                assert(lookup::has_two_empty(geo, d1));
                lookup::lemma_span(m3, geo, d1, last);
            }
        }
        model::lemma_next_sector(geo, info, 0);
        db::lemma_geo(geo);
        assert(lookup::has_empty(geo, d1)) by {
            assert(d1[s].store == SectorStoreStatus::Empty);
        }
        if uncollected(geo, d) {
            assert forall|a: int| db::is_sector(geo, a) implies (#[trigger] d1[a]).dirty
                != SectorDirtyStatus::Gc by {
                if a != s {
                    assert(da[a] == d[a]);
                }
            }
        }
        d1
    } else {
        d
    }
}

/// What is live depends on the records alone.
pub proof fn lemma_same_recs(geo: Geo, d: Map<int, Sect>, d1: Map<int, Sect>)
    requires
        forall|a: int| db::is_sector(geo, a) ==> (#[trigger] d1[a]).recs == d[a].recs,
    ensures
        same_live(geo, d, d1),
        iter::all_sound(geo, d) ==> iter::all_sound(geo, d1),
        unique(geo, d) ==> unique(geo, d1),
        at_rest(geo, d) ==> at_rest(geo, d1),
{
    assert forall|a: int, j: int| #[trigger] live(geo, d1, a, j) == live(geo, d, a, j) by {
        if db::is_sector(geo, a) {
            assert(d1[a].recs == d[a].recs);
        }
    }
    assert forall|name: Seq<u8>, value: Seq<u8>| #[trigger]
        has_live(geo, d1, name, value) <==> has_live(geo, d, name, value) by {
        if has_live(geo, d1, name, value) {
            let (a, j) = choose|a: int, j: int| live_as(geo, d1, a, j, name, value);
            assert(live(geo, d1, a, j));
            assert(d1[a].recs == d[a].recs);
            assert(live_as(geo, d, a, j, name, value));
        }
        if has_live(geo, d, name, value) {
            let (a, j) = choose|a: int, j: int| live_as(geo, d, a, j, name, value);
            assert(live(geo, d, a, j));
            assert(d1[a].recs == d[a].recs);
            assert(live_as(geo, d1, a, j, name, value));
        }
    }
    if iter::all_sound(geo, d) {
        assert forall|a: int, j: int| db::is_sector(geo, a) && 0 <= j < d1[a].recs.len() implies (
        #[trigger] d1[a].recs[j]).sound by {
            assert(d1[a].recs == d[a].recs);
            assert(d[a].recs[j].sound);
        }
    }
    if unique(geo, d) {
        assert forall|a: int, j: int, b: int, k: int|
            #![trigger live(geo, d1, a, j), live(geo, d1, b, k)]
            live(geo, d1, a, j) && live(geo, d1, b, k) && d1[a].recs[j].name
                == d1[b].recs[k].name implies a == b && j
            == k by {
            assert(d1[a].recs == d[a].recs && d1[b].recs == d[b].recs);
            assert(live(geo, d, a, j) && live(geo, d, b, k));
        }
    }
    if at_rest(geo, d) {
        assert forall|a: int, j: int| db::is_sector(geo, a) && 0 <= j < d1[a].recs.len() implies (
        #[trigger] d1[a].recs[j]).status != KvStatus::PreDelete && d1[a].recs[j].status
            != KvStatus::PreWrite by {
            assert(d1[a].recs == d[a].recs);
            assert(d[a].recs[j].status != KvStatus::PreDelete);
        }
    }
}

/// Whether the sector at `s` is the first dirty one that a walk from the sector `o` on comes
/// to after `t` bytes or more.
pub open spec fn first_dirty(geo: Geo, d: Map<int, Sect>, o: int, t: int, s: int) -> bool {
    &&& db::is_sector(geo, s)
    &&& ring::dist(geo, o, s) >= t
    &&& dirty(d[s])
    &&& forall|a: int|
        db::is_sector(geo, a) && t <= ring::dist(geo, o, a) < ring::dist(geo, o, s) ==> !dirty(
            #[trigger] d[a],
        )
}

/// Whether collecting the dirty sector that a walk from the sector `o` on comes to first
/// makes room for a record of `size` bytes: its live records leave that much of a sector.
pub open spec fn can_free(geo: Geo, d: Map<int, Sect>, o: int, size: int) -> bool {
    exists|s: int|
        #[trigger] first_dirty(geo, d, o, 0, s) && 16 + live_len(d[s].recs, 0) + size + 88
            < geo.sec
}

/// Whether there is room for a record of `size` bytes in a sector in use, or in one of two
/// empty ones.
pub open spec fn has_space(geo: Geo, d: Map<int, Sect>, size: int) -> bool {
    ||| exists|a: int| #[trigger]
        lookup::can_take(geo, d, a, SectorStoreStatus::Using, size, false)
    ||| lookup::has_two_empty(geo, d) && 16 + size + 88 < geo.sec
}

/// Whether `d1` is what adding records of `n` bytes in all may make of `d`: no sector takes in
/// more, and none counts as full with it.
pub open spec fn within(geo: Geo, d: Map<int, Sect>, d1: Map<int, Sect>, n: int) -> bool {
    forall|a: int|
        db::is_sector(geo, a) ==> image::span((#[trigger] d1[a]).recs) <= image::span(d[a].recs) + n
            && (d1[a].store == d[a].store || (d[a].store == SectorStoreStatus::Empty && d1[a].store
            == SectorStoreStatus::Using))
}

/// Adding records twice.
pub proof fn lemma_within_trans(
    geo: Geo,
    d: Map<int, Sect>,
    d1: Map<int, Sect>,
    d2: Map<int, Sect>,
    n: int,
    n1: int,
)
    requires
        within(geo, d, d1, n),
        within(geo, d1, d2, n1),
    ensures
        within(geo, d, d2, n + n1),
{
    assert forall|a: int| db::is_sector(geo, a) implies image::span((#[trigger] d2[a]).recs)
        <= image::span(d[a].recs) + n + n1 && (d2[a].store == d[a].store || (d[a].store
        == SectorStoreStatus::Empty && d2[a].store == SectorStoreStatus::Using)) by {
        assert(image::span(d1[a].recs) <= image::span(d[a].recs) + n);
    }
}

/// Adding records takes no more room than they need.
pub proof fn lemma_within_space(
    m: Medium,
    m1: Medium,
    geo: Geo,
    d: Map<int, Sect>,
    d1: Map<int, Sect>,
    n: int,
    size: int,
)
    requires
        image::holds_image(m, geo, d),
        image::holds_image(m1, geo, d1),
        within(geo, d, d1, n),
        uncollected(geo, d1),
        n >= 0,
        has_space(geo, d, size + n),
    ensures
        has_space(geo, d1, size),
{
    if exists|a: int| #[trigger]
        lookup::can_take(geo, d, a, SectorStoreStatus::Using, size + n, false) {
        let a = choose|a: int| #[trigger]
            lookup::can_take(geo, d, a, SectorStoreStatus::Using, size + n, false);
        assert(image::sector_at(m1.bytes, geo, a, d1[a]));
        image::lemma_open_sector(m1.bytes, geo, a, d1[a]);
        assert(lookup::can_take(geo, d1, a, SectorStoreStatus::Using, size, false));
    } else {
        let (a, b) = choose|a: int, b: int|
            #![trigger d[a], d[b]]
            a != b && db::is_sector(geo, a) && db::is_sector(geo, b) && d[a].store
                == SectorStoreStatus::Empty && d[b].store == SectorStoreStatus::Empty;
        assert(image::sector_at(m.bytes, geo, a, d[a]));
        image::lemma_open_sector(m.bytes, geo, a, d[a]);
        assert(image::sector_at(m.bytes, geo, b, d[b]));
        image::lemma_open_sector(m.bytes, geo, b, d[b]);
        assert(image::span(d[a].recs) == 0 && image::span(d[b].recs) == 0);
        assert(image::sector_at(m1.bytes, geo, a, d1[a]));
        image::lemma_open_sector(m1.bytes, geo, a, d1[a]);
        assert(image::sector_at(m1.bytes, geo, b, d1[b]));
        image::lemma_open_sector(m1.bytes, geo, b, d1[b]);
        if d1[a].store == SectorStoreStatus::Using {
            assert(lookup::can_take(geo, d1, a, SectorStoreStatus::Using, size, false));
        } else if d1[b].store == SectorStoreStatus::Using {
            assert(lookup::can_take(geo, d1, b, SectorStoreStatus::Using, size, false));
        } else {
            assert(lookup::has_two_empty(geo, d1));
        }
    }
}

/// Where the first dirty sector is collected and its live records leave room, there is room.
proof fn lemma_space(
    geo: Geo,
    d: Map<int, Sect>,
    d1: Map<int, Sect>,
    s: int,
    e: int,
    size: int,
)
    requires
        db::is_sector(geo, s),
        db::is_sector(geo, e),
        e != s,
        d[e].store == SectorStoreStatus::Empty,
        d1[e].dirty == SectorDirtyStatus::False,
        image::span(d[e].recs) == 0,
        filled(geo, d, d1, s, live_len(d[s].recs, 0)),
        d1[s] == change::fresh(),
        16 + live_len(d[s].recs, 0) + size + 88 < geo.sec,
        live_len(d[s].recs, 0) >= 0,
    ensures
        has_space(geo, d1, size),
{
    if d1[e].store == SectorStoreStatus::Using {
        assert(lookup::can_take(geo, d1, e, SectorStoreStatus::Using, size, false));
    } else {
        assert(d1[s].store == SectorStoreStatus::Empty && d1[e].store == SectorStoreStatus::Empty);
        assert(lookup::has_two_empty(geo, d1));
    }
}

/// The live records have a length that is not negative.
proof fn lemma_live_len_min(bytes: Seq<u8>, geo: Geo, at: int, s: Sect, i: int)
    requires
        image::sector_at(bytes, geo, at, s),
        0 <= i <= s.recs.len(),
    ensures
        live_len(s.recs, i) >= 0,
    decreases s.recs.len() - i,
{
    if i < s.recs.len() {
        image::lemma_place(bytes, geo, at, s, i);
        lemma_live_len_min(bytes, geo, at, s, i + 1);
    }
}

/// A record that collecting makes room for fits an empty sector.
pub proof fn lemma_can_free(st: KvState, d: Map<int, Sect>, size: int)
    requires
        image::holds_image(st.m, st.geo, d),
        can_free(st.geo, d, st.oldest, size),
    ensures
        16 + size + 88 < st.geo.sec,
{
    let geo = st.geo;
    let s = choose|s: int|
        #[trigger] first_dirty(geo, d, st.oldest, 0, s) && 16 + live_len(d[s].recs, 0) + size + 88
            < geo.sec;
    assert(image::sector_at(st.m.bytes, geo, s, d[s]));
    lemma_live_len_min(st.m.bytes, geo, s, d[s], 0);
}

/// Room after a walk over the dirty sectors: collecting stops at the first of them where its
/// live records leave room.
proof fn lemma_found_space(
    st: KvState,
    d: Map<int, Sect>,
    d1: Map<int, Sect>,
    dz: Map<int, Sect>,
    o: int,
    t: int,
    x: int,
    free: int,
    last: int,
    stop: bool,
)
    requires
        collectable(st, d),
        ring::on_walk(st.geo, o, t),
        db::is_sector(st.geo, last),
        d[last].store == SectorStoreStatus::Empty,
        free >= 0,
        first_dirty(st.geo, d, o, t, x),
        16 + live_len(d[x].recs, 0) + free + 88 < st.geo.sec,
        ({
            let s = ring::at(st.geo, o, t);
            &&& !dirty(d[s]) ==> d1 == d && !stop
            &&& dirty(d[s]) ==> {
                &&& filled(st.geo, d, d1, s, live_len(d[s].recs, 0))
                &&& d1[s] == change::fresh()
                &&& forall|a: int| db::is_sector(st.geo, a) && a != s ==> (#[trigger] d1[a]).dirty
                    == d[a].dirty
                &&& d1[last].store != SectorStoreStatus::Full && st.geo.sec - 16 - image::span(
                    d1[last].recs,
                ) > free ==> stop
            }
        }),
        stop ==> dz == d1,
        t + st.geo.sec >= st.geo.max ==> dz == d1,
        !dirty(d[ring::at(st.geo, o, t)]) && t + st.geo.sec < st.geo.max ==> forall|s: int|
            #[trigger] first_dirty(st.geo, d1, o, t + st.geo.sec, s) && 16 + live_len(
                d1[s].recs,
                0,
            ) + free + 88 < st.geo.sec ==> has_space(st.geo, dz, free),
    ensures
        has_space(st.geo, dz, free),
{
    let geo = st.geo;
    let s = ring::at(geo, o, t);
    ring::lemma_walk(geo, o, t);
    ring::lemma_ahead(geo, o, t, x);
    ring::lemma_dist(geo, o, x);
    assert(image::sector_at(st.m.bytes, geo, last, d[last]));
    image::lemma_open_sector(st.m.bytes, geo, last, d[last]);
    assert(image::sector_at(st.m.bytes, geo, x, d[x]));
    image::lemma_open_sector(st.m.bytes, geo, x, d[x]);
    lemma_live_len_min(st.m.bytes, geo, x, d[x], 0);
    if dirty(d[s]) {
        assert(x == s) by {
            if x != s {
                assert(t <= ring::dist(geo, o, s) < ring::dist(geo, o, x));
            }
        }
        assert(last != s);
        assert(image::span(d[last].recs) == 0);
        lemma_space(geo, d, d1, s, last, free);
    } else {
        assert(x != s);
        assert(first_dirty(geo, d1, o, t + geo.sec, x));
    }
}

/// Whether no sector is dirty: there is nothing to collect.
pub open spec fn clean(geo: Geo, d: Map<int, Sect>) -> bool {
    forall|a: int| db::is_sector(geo, a) ==> !dirty(#[trigger] d[a])
}

/// Whether no sector is dirty that a walk from the sector `o` on comes to before `t` bytes.
pub open spec fn clean_before(geo: Geo, d: Map<int, Sect>, o: int, t: int) -> bool {
    forall|a: int| db::is_sector(geo, a) && ring::dist(geo, o, a) < t ==> !dirty(#[trigger] d[a])
}

/// Whether the dirty sector at `s` was collected and no other.
pub open spec fn only_collected(geo: Geo, d: Map<int, Sect>, d1: Map<int, Sect>, s: int) -> bool {
    forall|a: int|
        db::is_sector(geo, a) ==> (#[trigger] d1[a]).dirty == (if a == s {
            SectorDirtyStatus::False
        } else {
            d[a].dirty
        })
}

/// Collecting the dirty sectors of a walk keeps what is live.
proof fn lemma_collect_from(
    st: KvState,
    d: Map<int, Sect>,
    o: int,
    t: int,
    free: int,
    last: int,
) -> (d1: Map<int, Sect>)
    requires
        collectable(st, d),
        ring::on_walk(st.geo, o, t),
        db::is_sector(st.geo, last),
    ensures
        ({
            let st1 = model::collect_from(st, free, last, ring::at(st.geo, o, t), t);
            &&& st1 == (KvState { m: st1.m, oldest: st1.oldest, ..st })
            &&& collectable(st1, d1)
            &&& same_live(st.geo, d, d1)
            &&& uncollected(st.geo, d) ==> uncollected(st.geo, d1)
            &&& iter::all_sound(st.geo, d) ==> iter::all_sound(st.geo, d1)
            &&& accounted(st.geo, d) ==> accounted(st.geo, d1)
            &&& d[last].store == SectorStoreStatus::Empty && free >= 0 ==> forall|s: int| #[trigger]
                first_dirty(st.geo, d, o, t, s) && 16 + live_len(d[s].recs, 0) + free + 88
                    < st.geo.sec ==> has_space(st.geo, d1, free)
            &&& d[last].store == SectorStoreStatus::Empty ==> forall|s: int| #[trigger]
                first_dirty(st.geo, d, o, t, s) && 16 + live_len(d[s].recs, 0) + free < st.geo.sec
                    ==> only_collected(st.geo, d, d1, s)
            &&& d[last].dirty == SectorDirtyStatus::False && free >= 0 && clean_before(
                st.geo,
                d,
                o,
                t,
            ) ==> has_space(st.geo, d1, free - 88) || clean(st.geo, d1)
        }),
    decreases st.geo.max - t,
{
    let geo = st.geo;
    let at = ring::at(geo, o, t);
    ring::lemma_walk(geo, o, t);
    image::lemma_head(st.m, geo, d, at);
    let s = model::sector_head(st.m, at);
    let d1 = lemma_collect_sector(st, d, at, s, free, last);
    let (st1, last1, stop) = model::collect_sector(st, s, free, last);
    lookup::lemma_next(geo, o, t, s);
    let dz = if !stop && t + geo.sec < geo.max {
        let d2 = lemma_collect_from(st1, d1, o, t + geo.sec, free, last1);
        lemma_same_live_trans(geo, d, d1, d2);
        d2
    } else {
        d1
    };
    if d[last].store == SectorStoreStatus::Empty && free >= 0 {
        assert forall|x: int| #[trigger]
            first_dirty(geo, d, o, t, x) && 16 + live_len(d[x].recs, 0) + free + 88
                < geo.sec implies has_space(geo, dz, free) by {
            lemma_found_space(st, d, d1, dz, o, t, x, free, last, stop);
        }
    }
    if d[last].store == SectorStoreStatus::Empty {
        assert forall|x: int| #[trigger]
            first_dirty(geo, d, o, t, x) && 16 + live_len(d[x].recs, 0) + free
                < geo.sec implies only_collected(geo, d, dz, x) by {
            ring::lemma_ahead(geo, o, t, x);
            ring::lemma_dist(geo, o, x);
            assert(image::sector_at(st.m.bytes, geo, last, d[last]));
            image::lemma_open_sector(st.m.bytes, geo, last, d[last]);
            if dirty(d[at]) {
                assert(x == at);
                assert(last != at);
                assert(image::span(d1[last].recs) <= image::span(d[last].recs) + live_len(d[at].recs, 0));
                assert(stop);
            } else {
                assert(x != at);
                assert(first_dirty(geo, d1, o, t + geo.sec, x));
            }
        }
    }
    if d[last].dirty == SectorDirtyStatus::False && free >= 0 && clean_before(geo, d, o, t) {
        assert(dirty(d[at]) ==> last != at);
        assert(clean_before(geo, d1, o, t + geo.sec)) by {
            assert forall|a: int| db::is_sector(geo, a) && ring::dist(geo, o, a) < t + geo.sec implies !dirty(
                #[trigger] d1[a],
            ) by {
                if ring::dist(geo, o, a) >= t {
                    ring::lemma_ahead(geo, o, t, a);
                    assert(a == at);
                } else {
                    assert(!dirty(d[a]));
                }
            }
        }
        if !stop && t + geo.sec >= geo.max {
            assert forall|a: int| db::is_sector(geo, a) implies !dirty(#[trigger] d1[a]) by {
                ring::lemma_dist(geo, o, a);
            }
        }
    }
    dz
}

/// Garbage collection keeps every live record, and leaves an empty sector. With two empty
/// sectors nothing is collected. With one, collecting goes on until a sector other than the one
/// that was collected last has more than `free` bytes left, or no dirty sector is: any number
/// of them is collected, not the first alone. Where the live records of the first dirty sector
/// leave more than `free` bytes of a sector, no other is collected.
pub proof fn gc_keeps_live(st: KvState, d: Map<int, Sect>, free: int) -> (d1: Map<int, Sect>)
    requires
        collectable(st, d),
    ensures
        ({
            let st1 = model::gc(st, free);
            &&& st1 == (KvState { m: st1.m, oldest: st1.oldest, gc_request: false, ..st })
            &&& collectable(KvState { gc_request: true, ..st1 }, d1)
            &&& same_live(st.geo, d, d1)
            &&& uncollected(st.geo, d) ==> uncollected(st.geo, d1)
            &&& iter::all_sound(st.geo, d) ==> iter::all_sound(st.geo, d1)
            &&& accounted(st.geo, d) ==> accounted(st.geo, d1)
            &&& free >= 0 && can_free(st.geo, d, st.oldest, free) ==> has_space(st.geo, d1, free)
            &&& lookup::has_two_empty(st.geo, d) ==> d1 == d && st1.m == st.m
            &&& free >= 0 && !lookup::has_two_empty(st.geo, d) ==> has_space(
                st.geo,
                d1,
                free - 88,
            ) || clean(st.geo, d1)
            &&& !lookup::has_two_empty(st.geo, d) ==> forall|s: int| #[trigger]
                first_dirty(st.geo, d, st.oldest, 0, s) && 16 + live_len(d[s].recs, 0) + free
                    < st.geo.sec ==> only_collected(st.geo, d, d1, s)
        }),
{
    reveal(model::gc);
    let geo = st.geo;
    db::lemma_geo(geo);
    vstd::arithmetic::div_mod::lemma_small_mod(0, geo.sec as nat);
    assert(ring::on_walk(geo, st.oldest, 0));
    ring::lemma_walk(geo, st.oldest, 0);
    assert(db::is_sector(geo, 0));
    lookup::lemma_empties(st.m, geo, d, st.oldest, 0, 0, 0);
    let (n, last) = model::empty_sectors(st.m, geo, st.oldest, 0, 0, 0);
    let e = choose|a: int|
        db::is_sector(geo, a) && (#[trigger] d[a]).store == SectorStoreStatus::Empty;
    ring::lemma_dist(geo, st.oldest, e);
    assert(d[last].store == SectorStoreStatus::Empty) by {
        assert(d[e].store == SectorStoreStatus::Empty);
    }
    if can_free(geo, d, st.oldest, free) {
        lemma_can_free(st, d, free);
    }
    lookup::lemma_two_empties(st.m, geo, d, st.oldest);
    assert(image::sector_at(st.m.bytes, geo, last, d[last]));
    image::lemma_open_sector(st.m.bytes, geo, last, d[last]);
    assert(clean_before(geo, d, st.oldest, 0)) by {
        assert forall|a: int| db::is_sector(geo, a) && ring::dist(geo, st.oldest, a) < 0 implies !dirty(
            #[trigger] d[a],
        ) by {
            ring::lemma_dist(geo, st.oldest, a);
        }
    }
    if n <= model::GC_EMPTY_SEC_THRESHOLD {
        let d1 = lemma_collect_from(st, d, st.oldest, 0, free, last);
        let st1 = model::collect_from(st, free, last, st.oldest, 0);
        assert(KvState { gc_request: true, ..model::gc(st, free) } == st1);
        d1
    } else {
        assert(KvState { gc_request: true, ..model::gc(st, free) } == st);
        d
    }
}

} // verus!
