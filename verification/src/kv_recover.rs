//! How opening the key-value database finishes what a power loss interrupted: a record
//! that was about to be deleted comes back, unless another one took its place, and one
//! that was being written is marked as bad.
use vstd::prelude::*;

use crate::codec;
use crate::db;
use crate::db::Geo;
use crate::def::{KvStatus, SectorDirtyStatus, SectorStoreStatus, KV_NAME_MAX};
use crate::flash;
use crate::kv_change as change;
use crate::kv_gc as gc;
use crate::kv_image as image;
use crate::kv_image::{Rec, Sect};
use crate::kv_laws as laws;
use crate::kv_lookup as lookup;
use crate::kv_model as model;
use crate::kv_model::{KvState, Node, SecInfo};
use crate::ring;
use crate::status;
use crate::storage::Medium;

verus! {

/// What a power loss left unfinished: a record that was about to be deleted and one that
/// was being written, each by the address of its sector and its place there.
pub struct Pending {
    pub del: Option<(int, int)>,
    pub put: Option<(int, int)>,
}

/// Whether the records that wait to be deleted or written are those of `q`.
pub open spec fn pends(geo: Geo, d: Map<int, Sect>, q: Pending) -> bool {
    &&& forall|x: int, y: int|
        db::is_sector(geo, x) && 0 <= y < d[x].recs.len() ==> ((
        #[trigger] d[x].recs[y]).status == KvStatus::PreDelete <==> q.del == Some((x, y))) && (
        d[x].recs[y].status == KvStatus::PreWrite <==> q.put == Some((x, y)))
    &&& q.del matches Some((b, j)) ==> db::is_sector(geo, b) && 0 <= j < d[b].recs.len()
        && d[b].recs[j].sound
    &&& q.put matches Some((a, l)) ==> db::is_sector(geo, a) && 0 <= l < d[a].recs.len()
}

/// What holds of a database that is being recovered.
pub open spec fn recovering(st: KvState, d: Map<int, Sect>) -> bool {
    &&& image::holds_image(st.m, st.geo, d)
    &&& st.m.budget is None
    &&& db::is_sector(st.geo, st.oldest)
    &&& !st.gc_request
    &&& st.recovering
    &&& gc::unique(st.geo, d)
    &&& lookup::has_empty(st.geo, d)
}

/// Whether room for `size` bytes is found without collecting garbage.
pub open spec fn has_room(geo: Geo, d: Map<int, Sect>, size: int) -> bool {
    ||| exists|t: int| #[trigger]
        lookup::can_take(geo, d, t, SectorStoreStatus::Using, size, false)
    ||| lookup::has_two_empty(geo, d) && exists|t: int| #[trigger]
        lookup::can_take(geo, d, t, SectorStoreStatus::Empty, size, false)
}

/// Whether the record of `q` that was about to be deleted can come back.
pub open spec fn can_return(geo: Geo, d: Map<int, Sect>, q: Pending) -> bool {
    q.del matches Some((b, j)) ==> {
        has_room(geo, d, image::body(d[b].recs[j]))
    }
}

/// Whether a live record has this name.
pub open spec fn known(geo: Geo, d: Map<int, Sect>, name: Seq<u8>) -> bool {
    exists|v: Seq<u8>| #[trigger] gc::has_live(geo, d, name, v)
}

/// Whether what is live in `d1` is what is live in `d`, and the `j`th record of the sector
/// at `b` of `d` where its name is not known there.
pub open spec fn came_back(
    geo: Geo,
    d: Map<int, Sect>,
    b: int,
    j: int,
    d1: Map<int, Sect>,
) -> bool {
    let r = d[b].recs[j];
    forall|name: Seq<u8>, v: Seq<u8>| #[trigger]
        gc::has_live(geo, d1, name, v) <==> gc::has_live(geo, d, name, v) || (name == r.name && v
            == r.value && !known(geo, d, r.name))
}

/// Whether bringing back the `j`th record of the sector at `b` of `d` made `d1` of it, and took
/// no more room than the record needs.
pub open spec fn returned(
    geo: Geo,
    d: Map<int, Sect>,
    b: int,
    j: int,
    d1: Map<int, Sect>,
) -> bool {
    came_back(geo, d, b, j, d1) && gc::within(geo, d, d1, image::body(d[b].recs[j]))
}

// ---------------------------------------------------------------------- single records

/// Changing a record that is not live, to one that is not live either, changes nothing
/// that is live.
pub proof fn lemma_dead(geo: Geo, d: Map<int, Sect>, x: int, y: int, s1: Sect)
    requires
        0 <= y < d[x].recs.len(),
        s1.recs == d[x].recs.update(y, s1.recs[y]),
        d[x].recs[y].status != KvStatus::Write,
        s1.recs[y].status != KvStatus::Write,
    ensures
        gc::same_live(geo, d, d.insert(x, s1)),
        gc::unique(geo, d) ==> gc::unique(geo, d.insert(x, s1)),
{
    let d1 = d.insert(x, s1);
    assert forall|a: int, j: int| #[trigger] gc::live(geo, d1, a, j) == gc::live(geo, d, a, j) by {
        if a == x && j != y && 0 <= j < d[x].recs.len() {
            assert(s1.recs[j] == d[x].recs[j]);
        }
    }
    assert forall|a: int, j: int| #[trigger] gc::live(geo, d1, a, j) implies d1[a].recs[j]
        == d[a].recs[j] by {
        if a == x {
            assert(j != y);
            assert(s1.recs[j] == d[x].recs[j]);
        }
    }
    assert forall|name: Seq<u8>, v: Seq<u8>| #[trigger]
        gc::has_live(geo, d1, name, v) <==> gc::has_live(geo, d, name, v) by {
        if gc::has_live(geo, d1, name, v) {
            let (a, j) = choose|a: int, j: int| gc::live_as(geo, d1, a, j, name, v);
            assert(gc::live(geo, d1, a, j));
            assert(gc::live_as(geo, d, a, j, name, v));
        }
        if gc::has_live(geo, d, name, v) {
            let (a, j) = choose|a: int, j: int| gc::live_as(geo, d, a, j, name, v);
            assert(gc::live(geo, d1, a, j));
            assert(gc::live_as(geo, d1, a, j, name, v));
        }
    }
    if gc::unique(geo, d) {
        assert forall|a: int, j: int, b: int, k: int|
            #![trigger gc::live(geo, d1, a, j), gc::live(geo, d1, b, k)]
            gc::live(geo, d1, a, j) && gc::live(geo, d1, b, k) && d1[a].recs[j].name
                == d1[b].recs[k].name implies a == b && j
            == k by {
            assert(gc::live(geo, d, a, j) && gc::live(geo, d, b, k));
        }
    }
}

/// A torn record with a header that is marked as bad.
proof fn lemma_bad_torn(b1: Seq<u8>, b2: Seq<u8>, geo: Geo, a: int, r: Rec)
    requires
        !r.sound,
        r.status == KvStatus::PreWrite,
        image::torn_at(b1, geo, a, r),
        b2.len() == b1.len(),
        b2[a] == status::status_byte(5),
        forall|j: int| 0 <= j < b1.len() && j != a ==> #[trigger] b2[j] == b1[j],
    ensures
        image::torn_at(b2, geo, a, Rec { status: KvStatus::ErrHdr, ..r }),
{
    let len = r.torn_len;
    let h1 = b1.subrange(a, a + 24);
    let h2 = b2.subrange(a, a + 24);
    assert(codec::le32(h1, 8) == codec::le32(h2, 8));
    assert(b2.subrange(a + 16, a + 20) =~= b1.subrange(a + 16, a + 20));
    assert(b2.subrange(a + 20, a + 24) =~= b1.subrange(a + 20, a + 24));
    assert(b2.subrange(a + 24, a + len) =~= b1.subrange(a + 24, a + len));
    assert(codec::le32(b2, a + 4) == codec::le32(b1, a + 4));
    assert(codec::le32(b2, a + 8) == codec::le32(b1, a + 8));
    assert(codec::le32(b2, a + 12) == codec::le32(b1, a + 12));
}

/// Marking a record that was being written as bad.
proof fn lemma_mark_bad(m: Medium, geo: Geo, d: Map<int, Sect>, a: int, l: int)
    requires
        image::holds_image(m, geo, d),
        m.budget is None,
        db::is_sector(geo, a),
        0 <= l < d[a].recs.len(),
        d[a].recs[l].status == KvStatus::PreWrite,
    ensures
        ({
            let m1 = flash::put_status(m, image::place(a, d[a].recs, l), 5, true);
            &&& image::holds_image(
                m1,
                geo,
                d.insert(a, change::with_status(d[a], l, KvStatus::ErrHdr)),
            )
            &&& m1.budget is None
            &&& m1.bytes.len() == m.bytes.len()
        }),
{
    let r = d[a].recs[l];
    let at = image::place(a, d[a].recs, l);
    assert(image::sector_at(m.bytes, geo, a, d[a]));
    image::lemma_place(m.bytes, geo, a, d[a], l);
    if r.sound {
        change::lemma_put_rec_status(m, geo, d, a, l, KvStatus::ErrHdr, true);
    } else {
        let m1 = flash::put_status(m, at, 5, true);
        flash::lemma_clears_status(m, at, 1, 5);
        assert(status::status_place(5) == 0);
        assert(m.accepts(at, 1));
        let b1 = m.bytes;
        let b2 = m1.bytes;
        assert(b2[at] == status::status_byte(5));
        assert forall|j: int| 0 <= j < b1.len() && j != at implies #[trigger] b2[j] == b1[j] by {}
        lemma_bad_torn(b1, b2, geo, at, r);
        let r2 = Rec { status: KvStatus::ErrHdr, ..r };
        change::lemma_replace_rec(b1, b2, geo, a, d[a], l, r2);
        image::lemma_image_frame(
            b1,
            b2,
            geo,
            d,
            a,
            change::with_status(d[a], l, KvStatus::ErrHdr),
        );
    }
}

/// Marking a record that was being written as bad is all that is left to do with it.
proof fn lemma_put_settled(geo: Geo, d: Map<int, Sect>, q: Pending, a: int, l: int)
    requires
        pends(geo, d, q),
        q.put == Some((a, l)),
    ensures
        ({
            let d1 = d.insert(a, change::with_status(d[a], l, KvStatus::ErrHdr));
            &&& pends(geo, d1, Pending { put: None, ..q })
            &&& gc::same_live(geo, d, d1)
            &&& gc::unique(geo, d) ==> gc::unique(geo, d1)
            &&& gc::uncollected(geo, d) ==> gc::uncollected(geo, d1)
            &&& lookup::has_empty(geo, d) ==> lookup::has_empty(geo, d1)
        }),
{
    let s1 = change::with_status(d[a], l, KvStatus::ErrHdr);
    let d1 = d.insert(a, s1);
    assert(d[a].recs[l].status == KvStatus::PreWrite);
    lemma_dead(geo, d, a, l, s1);
    let q1 = Pending { put: None, ..q };
    assert forall|x: int, y: int| db::is_sector(geo, x) && 0 <= y < d1[x].recs.len() implies ((
    #[trigger] d1[x].recs[y]).status == KvStatus::PreDelete <==> q1.del == Some((x, y))) && (
    d1[x].recs[y].status == KvStatus::PreWrite <==> q1.put == Some((x, y))) by {
        let r = d[x].recs[y];
        if x == a && y == l {
        } else {
            assert(d1[x].recs[y] == r);
        }
    }
    if gc::uncollected(geo, d) {
        assert forall|x: int| db::is_sector(geo, x) implies (#[trigger] d1[x]).dirty
            != SectorDirtyStatus::Gc by {
            assert(d[x].dirty != SectorDirtyStatus::Gc);
        }
    }
    if lookup::has_empty(geo, d) {
        let e = choose|x: int|
            db::is_sector(geo, x) && (#[trigger] d[x]).store == SectorStoreStatus::Empty;
        assert(d1[e].store == SectorStoreStatus::Empty);
    }
}

/// Whether two images agree in where records can be added.
pub open spec fn as_roomy(geo: Geo, d: Map<int, Sect>, d1: Map<int, Sect>) -> bool {
    forall|x: int|
        #![trigger d1[x]]
        d1[x].store == d[x].store && lookup::full_info(geo, x, d1[x]) == lookup::full_info(
            geo,
            x,
            d[x],
        )
}

/// Images that agree in where records can be added have the same room.
pub proof fn lemma_roomy_within(geo: Geo, d: Map<int, Sect>, d1: Map<int, Sect>)
    requires
        as_roomy(geo, d, d1),
    ensures
        gc::within(geo, d, d1, 0),
{
    assert forall|x: int| db::is_sector(geo, x) implies image::span((#[trigger] d1[x]).recs)
        <= image::span(d[x].recs) && d1[x].store == d[x].store by {
        let info = lookup::full_info(geo, x, d1[x]);
        assert(info.remain == lookup::full_info(geo, x, d[x]).remain);
    }
}

/// Room is found in two images that agree in where records can be added alike.
pub proof fn lemma_as_roomy(geo: Geo, d: Map<int, Sect>, d1: Map<int, Sect>, size: int)
    requires
        as_roomy(geo, d, d1),
    ensures
        has_room(geo, d1, size) == has_room(geo, d, size),
        lookup::has_two_empty(geo, d1) == lookup::has_two_empty(geo, d),
{
    assert forall|t: int, w: SectorStoreStatus| #[trigger]
        lookup::can_take(geo, d1, t, w, size, false) == lookup::can_take(
            geo,
            d,
            t,
            w,
            size,
            false,
        ) by {
        assert(d1[t].store == d[t].store);
    }
    assert forall|x: int| (#[trigger] d[x]).store == d1[x].store by {
        assert(d1[x].store == d[x].store);
    }
    laws::lemma_still_empty(geo, d, d1);
    laws::lemma_still_empty(geo, d1, d);
    if has_room(geo, d1, size) {
        if exists|t: int| #[trigger]
            lookup::can_take(geo, d1, t, SectorStoreStatus::Using, size, false) {
            let t = choose|t: int| #[trigger]
                lookup::can_take(geo, d1, t, SectorStoreStatus::Using, size, false);
            assert(lookup::can_take(geo, d, t, SectorStoreStatus::Using, size, false));
        } else {
            let t = choose|t: int| #[trigger]
                lookup::can_take(geo, d1, t, SectorStoreStatus::Empty, size, false);
            assert(lookup::can_take(geo, d, t, SectorStoreStatus::Empty, size, false));
        }
    }
    if has_room(geo, d, size) {
        if exists|t: int| #[trigger]
            lookup::can_take(geo, d, t, SectorStoreStatus::Using, size, false) {
            let t = choose|t: int| #[trigger]
                lookup::can_take(geo, d, t, SectorStoreStatus::Using, size, false);
            assert(lookup::can_take(geo, d1, t, SectorStoreStatus::Using, size, false));
        } else {
            let t = choose|t: int| #[trigger]
                lookup::can_take(geo, d, t, SectorStoreStatus::Empty, size, false);
            assert(lookup::can_take(geo, d1, t, SectorStoreStatus::Empty, size, false));
        }
    }
}

/// The image once the `l`th record of the sector at `a` is marked as bad.
pub open spec fn spoilt(d: Map<int, Sect>, a: int, l: int) -> Map<int, Sect> {
    d.insert(a, change::with_status(d[a], l, KvStatus::ErrHdr))
}

/// Recovering a record that was being written: it is marked as bad.
pub proof fn lemma_spoil(st: KvState, d: Map<int, Sect>, q: Pending, a: int, l: int)
    requires
        recovering(st, d),
        pends(st.geo, d, q),
        q.put == Some((a, l)),
    ensures
        ({
            let m1 = flash::put_status(st.m, image::place(a, d[a].recs, l), 5, true);
            let d1 = spoilt(d, a, l);
            &&& recovering((KvState { m: m1, ..st }), d1)
            &&& pends(st.geo, d1, Pending { put: None, ..q })
            &&& gc::same_live(st.geo, d, d1)
            &&& gc::uncollected(st.geo, d) ==> gc::uncollected(st.geo, d1)
            &&& as_roomy(st.geo, d, d1)
            &&& d1 != d
            &&& d1[a].recs.len() == d[a].recs.len()
            &&& forall|x: int, k: int|
                0 <= k < d[x].recs.len() ==> (#[trigger] d1[x].recs[k]).sound == d[x].recs[k].sound
                    && image::body(d1[x].recs[k]) == image::body(d[x].recs[k]) && image::size(
                    d1[x].recs[k],
                ) == image::size(d[x].recs[k]) && d1[x].recs[k].name == d[x].recs[k].name
                    && d1[x].recs[k].value == d[x].recs[k].value
        }),
{
    let geo = st.geo;
    let d1 = spoilt(d, a, l);
    assert(d[a].recs[l].status == KvStatus::PreWrite);
    lemma_mark_bad(st.m, geo, d, a, l);
    lemma_put_settled(geo, d, q, a, l);
    assert(d1[a].recs[l].status == KvStatus::ErrHdr);
    assert forall|x: int|
        #![trigger d1[x]]
        d1[x].store == d[x].store && lookup::full_info(geo, x, d1[x]) == lookup::full_info(
            geo,
            x,
            d[x],
        ) by {
        if x == a {
            image::lemma_reach_same(d1[a].recs, d[a].recs, d[a].recs.len() as int);
        }
    }
}

/// The image once the `j`th record of the sector at `b` is deleted.
pub open spec fn dropped(d: Map<int, Sect>, b: int, j: int) -> Map<int, Sect> {
    d.insert(b, change::struck(d[b], j, KvStatus::Deleted))
}

/// Dropping a record that was about to be deleted.
pub proof fn lemma_dropped(geo: Geo, d: Map<int, Sect>, q: Pending, b: int, j: int)
    requires
        pends(geo, d, q),
        q.del == Some((b, j)),
        gc::unique(geo, d),
        lookup::has_empty(geo, d),
    ensures
        ({
            let d1 = dropped(d, b, j);
            &&& pends(geo, d1, Pending { del: None, ..q })
            &&& gc::same_live(geo, d, d1)
            &&& gc::unique(geo, d1)
            &&& gc::uncollected(geo, d) ==> gc::uncollected(geo, d1)
            &&& lookup::has_empty(geo, d1)
            &&& lookup::has_two_empty(geo, d) ==> lookup::has_two_empty(geo, d1)
            &&& forall|x: int| (#[trigger] d1[x]).store == d[x].store
        }),
{
    let s1 = change::struck(d[b], j, KvStatus::Deleted);
    let d1 = dropped(d, b, j);
    assert(d[b].recs[j].status == KvStatus::PreDelete);
    lemma_dead(geo, d, b, j, s1);
    let q1 = Pending { del: None, ..q };
    assert forall|x: int, y: int| db::is_sector(geo, x) && 0 <= y < d1[x].recs.len() implies ((
    #[trigger] d1[x].recs[y]).status == KvStatus::PreDelete <==> q1.del == Some((x, y))) && (
    d1[x].recs[y].status == KvStatus::PreWrite <==> q1.put == Some((x, y))) by {
        let r = d[x].recs[y];
        if x == b && y == j {
        } else {
            assert(d1[x].recs[y] == r);
        }
    }
    if gc::uncollected(geo, d) {
        assert forall|x: int| db::is_sector(geo, x) implies (#[trigger] d1[x]).dirty
            != SectorDirtyStatus::Gc by {
            assert(d[x].dirty != SectorDirtyStatus::Gc);
        }
    }
    laws::lemma_still_empty(geo, d, d1);
}

/// Adding a live record keeps what is unfinished.
proof fn lemma_added_pends(
    geo: Geo,
    d: Map<int, Sect>,
    q: Pending,
    t: int,
    key: Seq<u8>,
    value: Seq<u8>,
)
    requires
        pends(geo, d, q),
        db::is_sector(geo, t),
    ensures
        pends(geo, laws::added(d, t, key, value), q),
{
    let d1 = laws::added(d, t, key, value);
    assert forall|x: int, y: int| db::is_sector(geo, x) && 0 <= y < d1[x].recs.len() implies ((
    #[trigger] d1[x].recs[y]).status == KvStatus::PreDelete <==> q.del == Some((x, y))) && (
    d1[x].recs[y].status == KvStatus::PreWrite <==> q.put == Some((x, y))) by {
        if x == t && y == d[t].recs.len() {
        } else {
            assert(d1[x].recs[y] == d[x].recs[y]);
        }
    }
    match q.del {
        Some((b, j)) => {
            assert(d1[b].recs[j] == d[b].recs[j]);
        },
        None => {},
    }
}

/// Dropping a record takes no room.
proof fn lemma_dropped_within(geo: Geo, d: Map<int, Sect>, b: int, j: int)
    requires
        0 <= j < d[b].recs.len(),
    ensures
        gc::within(geo, d, dropped(d, b, j), 0),
{
    let d1 = dropped(d, b, j);
    assert forall|x: int| db::is_sector(geo, x) implies image::span((#[trigger] d1[x]).recs)
        <= image::span(d[x].recs) && d1[x].store == d[x].store by {
        if x == b {
            image::lemma_reach_same(d1[b].recs, d[b].recs, d[b].recs.len() as int);
        }
    }
}

/// A live record takes the room that it needs.
proof fn lemma_added_within(geo: Geo, d: Map<int, Sect>, t: int, key: Seq<u8>, value: Seq<u8>)
    requires
        d[t].store == SectorStoreStatus::Empty || d[t].store == SectorStoreStatus::Using,
        model::record_len(key, value) >= 0,
    ensures
        gc::within(geo, d, laws::added(d, t, key, value), model::record_len(key, value)),
{
    let d1 = laws::added(d, t, key, value);
    let r = change::live_rec(key, value);
    assert forall|x: int| db::is_sector(geo, x) implies image::span((#[trigger] d1[x]).recs)
        <= image::span(d[x].recs) + model::record_len(key, value) && (d1[x].store == d[x].store || (
    d[x].store == SectorStoreStatus::Empty && d1[x].store == SectorStoreStatus::Using)) by {
        if x == t {
            gc::lemma_push_span(d[t].recs, r);
            assert(d1[t].recs =~= d[t].recs.push(r));
        }
    }
}

/// Recovering a record that was about to be deleted: it comes back as a live one, unless
/// its name is known.
#[verifier::rlimit(40)]
proof fn lemma_regain(st: KvState, d: Map<int, Sect>, q: Pending, b: int, j: int, n: Node) -> (d1: Map<
    int,
    Sect,
>)
    requires
        recovering(st, d),
        pends(st.geo, d, q),
        q.del == Some((b, j)),
        can_return(st.geo, d, q),
        lookup::shown(d, b, j, n),
    ensures
        ({
            let (st1, r) = model::move_node(st, n);
            &&& r is Ok
            &&& st1 == (KvState { m: st1.m, ..st })
            &&& recovering(st1, d1)
            &&& pends(st.geo, d1, Pending { del: None, ..q })
            &&& returned(st.geo, d, b, j, d1)
            &&& gc::uncollected(st.geo, d) ==> gc::uncollected(st.geo, d1)
            &&& d1[b].store == d[b].store
            &&& d1[b].recs.len() >= d[b].recs.len()
            &&& forall|k: int|
                0 <= k < d[b].recs.len() ==> (#[trigger] d1[b].recs[k]).sound == d[b].recs[k].sound
                    && image::body(d1[b].recs[k]) == image::body(d[b].recs[k]) && image::size(
                    d1[b].recs[k],
                ) == image::size(d[b].recs[k])
        }),
{
    reveal(model::move_node);
    let geo = st.geo;
    let rec = d[b].recs[j];
    let key = rec.name;
    let len = image::body(rec);
    assert(rec.status == KvStatus::PreDelete);
    assert(image::sector_at(st.m.bytes, geo, b, d[b]));
    image::lemma_place(st.m.bytes, geo, b, d[b], j);
    image::lemma_open_sector(st.m.bytes, geo, b, d[b]);
    lookup::lemma_find_room(st, d, len);
    let (st1, slot) = model::find_room(st, len);
    assert(slot is Some);
    let info = slot.unwrap();
    let t = choose|a: int| #[trigger] lookup::slot_in(geo, d, a, len, false, info);
    assert(lookup::slot_in(geo, d, t, len, false, info));
    assert(n.name.subrange(0, n.name_len) == key);
    lookup::lemma_find(st1, d, key);
    let twin = model::find(st1, key);
    laws::lookup_gives_the_live_value(st1, d, key);
    assert(twin.2 == known(geo, d, key)) by {
        assert(twin.2 == model::lookup(st1, key) is Some);
        if twin.2 {
            let v = model::lookup(st1, key).unwrap();
            assert(gc::has_live(geo, d, key, v));
        }
    }
    lemma_dropped(geo, d, q, b, j);
    if twin.2 {
        change::lemma_delete_at(twin.0, geo, d, b, j, true);
        lemma_dropped_within(geo, d, b, j);
        assert(gc::within(geo, d, dropped(d, b, j), len));
        dropped(d, b, j)
    } else {
        lookup::lemma_span(twin.0, geo, d, t);
        change::lemma_move_body(twin.0, geo, d, b, j, t, info, n);
        let m2 = model::move_body(twin.0, n, info).0;
        let dc = laws::added(d, t, key, rec.value);
        assert(dc[b].recs.len() > j && dc[b].recs[j] == d[b].recs[j]);
        assert(image::place(b, dc[b].recs, j) == n.at) by {
            image::lemma_reach_same(dc[b].recs, d[b].recs, j);
        }
        change::lemma_delete_at(m2, geo, dc, b, j, true);
        let d1 = dc.insert(b, change::struck(dc[b], j, KvStatus::Deleted));
        let ds = dropped(d, b, j);
        assert(d1 == laws::added(ds, t, key, rec.value)) by {
            let x = laws::added(ds, t, key, rec.value);
            assert(d1[b].recs =~= x[b].recs);
            assert(d1[t].recs =~= x[t].recs);
            assert(d1 =~= x);
        }
        lemma_dropped_within(geo, d, b, j);
        lemma_added_within(geo, ds, t, key, rec.value);
        gc::lemma_within_trans(geo, d, ds, d1, 0, len);
        assert forall|v: Seq<u8>| !#[trigger] gc::has_live(geo, ds, key, v) by {
            assert(gc::has_live(geo, ds, key, v) <==> gc::has_live(geo, d, key, v));
        }
        laws::lemma_added(geo, ds, t, key, rec.value);
        assert(ds[t].store == d[t].store);
        laws::lemma_added_good(geo, ds, t, key, rec.value);
        lemma_added_pends(geo, ds, Pending { del: None, ..q }, t, key, rec.value);
        d1
    }
}

// --------------------------------------------------------------------------- the walk

/// Whether the place `x` is one of the sector at `at`, at the `i`th record or behind it.
pub open spec fn here(x: Option<(int, int)>, at: int, i: int) -> bool {
    x matches Some((b, j)) && b == at && j >= i
}

/// What recovering the records of the sector at `at` from the `i`th on makes of the image
/// `d` with the unfinished records `q`: `d1` and `q1`.
pub open spec fn recovered(
    geo: Geo,
    d: Map<int, Sect>,
    q: Pending,
    at: int,
    i: int,
    d1: Map<int, Sect>,
    q1: Pending,
) -> bool {
    &&& pends(geo, d1, q1)
    &&& gc::uncollected(geo, d) ==> gc::uncollected(geo, d1)
    &&& q1.put == (if here(q.put, at, i) {
        None
    } else {
        q.put
    })
    &&& q1.del == (if here(q.del, at, i) {
        None
    } else {
        q.del
    })
    &&& !here(q.put, at, i) && !here(q.del, at, i) ==> d1 == d
    &&& here(q.del, at, i) ==> returned(geo, d, at, q.del.unwrap().1, d1)
    &&& !here(q.del, at, i) ==> gc::same_live(geo, d, d1) && as_roomy(geo, d, d1) && (
    q.del matches Some((b, j)) ==> same_record(d[b].recs[j], d1[b].recs[j]))
}

/// Whether two records have the same name and value.
pub open spec fn same_record(r: Rec, r1: Rec) -> bool {
    r1.name == r.name && r1.value == r.value && image::body(r1) == image::body(r)
}

/// Two steps in a row.
proof fn lemma_same_then_back(
    geo: Geo,
    d: Map<int, Sect>,
    b: int,
    j: int,
    d1: Map<int, Sect>,
    d2: Map<int, Sect>,
)
    requires
        gc::same_live(geo, d, d1),
        as_roomy(geo, d, d1),
        same_record(d[b].recs[j], d1[b].recs[j]),
        returned(geo, d1, b, j, d2),
    ensures
        returned(geo, d, b, j, d2),
{
    lemma_roomy_within(geo, d, d1);
    gc::lemma_within_trans(geo, d, d1, d2, 0, image::body(d[b].recs[j]));
    let r = d[b].recs[j];
    assert(known(geo, d1, r.name) == known(geo, d, r.name)) by {
        if known(geo, d1, r.name) {
            let v = choose|v: Seq<u8>| #[trigger] gc::has_live(geo, d1, r.name, v);
            assert(gc::has_live(geo, d, r.name, v));
        }
        if known(geo, d, r.name) {
            let v = choose|v: Seq<u8>| #[trigger] gc::has_live(geo, d, r.name, v);
            assert(gc::has_live(geo, d1, r.name, v));
        }
    }
    assert forall|name: Seq<u8>, v: Seq<u8>| #[trigger]
        gc::has_live(geo, d2, name, v) <==> gc::has_live(geo, d, name, v) || (name == r.name && v
            == r.value && !known(geo, d, r.name)) by {
        assert(gc::has_live(geo, d1, name, v) <==> gc::has_live(geo, d, name, v));
    }
}

/// Two steps in a row.
proof fn lemma_back_then_same(
    geo: Geo,
    d: Map<int, Sect>,
    b: int,
    j: int,
    d1: Map<int, Sect>,
    d2: Map<int, Sect>,
)
    requires
        returned(geo, d, b, j, d1),
        gc::same_live(geo, d1, d2),
        as_roomy(geo, d1, d2),
    ensures
        returned(geo, d, b, j, d2),
{
    lemma_roomy_within(geo, d1, d2);
    gc::lemma_within_trans(geo, d, d1, d2, image::body(d[b].recs[j]), 0);
    let r = d[b].recs[j];
    assert forall|name: Seq<u8>, v: Seq<u8>| #[trigger]
        gc::has_live(geo, d2, name, v) <==> gc::has_live(geo, d, name, v) || (name == r.name && v
            == r.value && !known(geo, d, r.name)) by {
        assert(gc::has_live(geo, d2, name, v) <==> gc::has_live(geo, d1, name, v));
    }
}

/// Recovering the records of a sector.
#[verifier::rlimit(60)]
proof fn lemma_recover_in(
    st: KvState,
    d: Map<int, Sect>,
    q: Pending,
    at: int,
    info: SecInfo,
    i: int,
    n: Node,
) -> (out: (Map<int, Sect>, Pending))
    requires
        recovering(st, d),
        pends(st.geo, d, q),
        can_return(st.geo, d, q),
        db::is_sector(st.geo, at),
        info.at == at,
        info.store == d[at].store,
        0 <= i < d[at].recs.len(),
        n.at == image::place(at, d[at].recs, i),
        n.name.len() == KV_NAME_MAX,
    ensures
        ({
            let (st1, stop) = model::recover_in_sector(st, info, n);
            &&& !stop
            &&& st1 == (KvState { m: st1.m, ..st })
            &&& recovering(st1, out.0)
            &&& recovered(st.geo, d, q, at, i, out.0, out.1)
            &&& can_return(st.geo, out.0, out.1)
        }),
    decreases
            (if q.del is Some {
                1int
            } else {
                0int
            }),
            d[at].recs.len() - i,
{
    let geo = st.geo;
    let recs = d[at].recs;
    image::lemma_step(st.m, geo, d, at, info, i, n);
    let m1 = model::after_read(st.m, geo, n.at);
    let n1 = model::read_node(st.m, geo, n);
    let sta = KvState { m: m1, ..st };
    assert(recs[i].status == KvStatus::PreDelete <==> q.del == Some((at, i)));
    assert(recs[i].status == KvStatus::PreWrite <==> q.put == Some((at, i)));
    if q.del == Some((at, i)) {
        let d1 = lemma_regain(sta, d, q, at, i, n1);
        let st1 = model::move_node(sta, n1).0;
        let q1 = Pending { del: None, ..q };
        lemma_onward(st1, d, d1, at, info, i, n1);
        if i + 1 < d1[at].recs.len() {
            let a = image::place(at, d1[at].recs, i + 1);
            let (d2, q2) = lemma_recover_in(
                st1,
                d1,
                q1,
                at,
                info,
                i + 1,
                Node { at: a, ..n1 },
            );
            lemma_back_then_same(geo, d, at, i, d1, d2);
            (d2, q2)
        } else {
            (d1, q1)
        }
    } else if q.put == Some((at, i)) {
        lemma_spoil(sta, d, q, at, i);
        let d1 = spoilt(d, at, i);
        let st1 = KvState { m: flash::put_status(m1, n.at, 5, true), ..sta };
        let q1 = Pending { put: None, ..q };
        lemma_still_returns(sta, d, q, st1, d1, q1);
        lemma_onward(st1, d, d1, at, info, i, n1);
        if i + 1 < recs.len() {
            let (d2, q2) = lemma_recover_in(
                st1,
                d1,
                q1,
                at,
                info,
                i + 1,
                Node { at: image::place(at, d1[at].recs, i + 1), ..n1 },
            );
            lemma_after_spoil(geo, d, q, at, i, d1, d2);
            (d2, q2)
        } else {
            (d1, q1)
        }
    } else if i + 1 < recs.len() {
        lemma_recover_in(
            sta,
            d,
            q,
            at,
            info,
            i + 1,
            Node { at: image::place(at, recs, i + 1), ..n1 },
        )
    } else {
        (d, q)
    }
}

/// A record that can return still can once another one is marked as bad.
proof fn lemma_still_returns(
    st: KvState,
    d: Map<int, Sect>,
    q: Pending,
    st1: KvState,
    d1: Map<int, Sect>,
    q1: Pending,
)
    requires
        can_return(st.geo, d, q),
        pends(st.geo, d, q),
        q1.del == q.del,
        as_roomy(st.geo, d, d1),
        forall|x: int, k: int|
            0 <= k < d[x].recs.len() ==> image::body(#[trigger] d1[x].recs[k]) == image::body(
                d[x].recs[k],
            ),
    ensures
        can_return(st.geo, d1, q1),
{
    match q.del {
        Some((b, j)) => {
            assert(image::body(d1[b].recs[j]) == image::body(d[b].recs[j]));
            lemma_as_roomy(st.geo, d, d1, image::body(d[b].recs[j]));
        },
        None => {},
    }
}

/// What is behind a record of which only the status changed.
pub proof fn lemma_onward(
    st: KvState,
    d: Map<int, Sect>,
    d1: Map<int, Sect>,
    at: int,
    info: SecInfo,
    i: int,
    n: Node,
)
    requires
        image::holds_image(st.m, st.geo, d1),
        db::is_sector(st.geo, at),
        info.at == at,
        info.store == d[at].store,
        d1[at].store == d[at].store,
        0 <= i < d[at].recs.len() <= d1[at].recs.len(),
        n.at == image::place(at, d[at].recs, i),
        n.len == image::body(d[at].recs[i]),
        n.crc_ok == d[at].recs[i].sound,
        !n.crc_ok ==> n.status == KvStatus::PreWrite || n.status == KvStatus::ErrHdr,
        forall|k: int|
            0 <= k < d[at].recs.len() ==> (#[trigger] d1[at].recs[k]).sound == d[at].recs[k].sound
                && image::body(d1[at].recs[k]) == image::body(d[at].recs[k]) && image::size(
                d1[at].recs[k],
            ) == image::size(d[at].recs[k]),
    ensures
        model::next_node(st.m.bytes, st.geo, info, n) == (if i + 1 < d1[at].recs.len() {
            Some(image::place(at, d1[at].recs, i + 1))
        } else {
            None
        }),
        n.at < image::place(at, d1[at].recs, i + 1) <= at + st.geo.sec,
{
    let recs = d[at].recs;
    let recs1 = d1[at].recs;
    image::lemma_reach_same(recs1, recs, i);
    assert(recs1[i].sound == recs[i].sound && image::body(recs1[i]) == image::body(recs[i]));
    assert(image::sector_at(st.m.bytes, st.geo, at, d1[at]));
    image::lemma_place(st.m.bytes, st.geo, at, d1[at], i);
    image::lemma_next_node_in(st.m.bytes, st.geo, at, d1[at], info, i, n);
}

/// What comes back once another record was marked as bad.
proof fn lemma_after_spoil(
    geo: Geo,
    d: Map<int, Sect>,
    q: Pending,
    at: int,
    i: int,
    d1: Map<int, Sect>,
    d2: Map<int, Sect>,
)
    requires
        pends(geo, d, q),
        gc::same_live(geo, d, d1),
        as_roomy(geo, d, d1),
        forall|x: int, k: int|
            0 <= k < d[x].recs.len() ==> image::body(#[trigger] d1[x].recs[k]) == image::body(
                d[x].recs[k],
            ) && d1[x].recs[k].name == d[x].recs[k].name && d1[x].recs[k].value
                == d[x].recs[k].value,
        here(q.del, at, i) ==> returned(geo, d1, at, q.del.unwrap().1, d2),
        !here(q.del, at, i) ==> gc::same_live(geo, d1, d2) && as_roomy(geo, d1, d2) && (
        q.del matches Some((b, j)) ==> same_record(d1[b].recs[j], d2[b].recs[j])),
    ensures
        here(q.del, at, i) ==> returned(geo, d, at, q.del.unwrap().1, d2),
        !here(q.del, at, i) ==> gc::same_live(geo, d, d2) && as_roomy(geo, d, d2) && (
        q.del matches Some((b, j)) ==> same_record(d[b].recs[j], d2[b].recs[j])),
{
    match q.del {
        Some((b, j)) => {
            assert(same_record(d[b].recs[j], d1[b].recs[j]));
            if b == at && j >= i {
                lemma_same_then_back(geo, d, b, j, d1, d2);
            }
        },
        None => {},
    }
    if !here(q.del, at, i) {
        gc::lemma_same_live_trans(geo, d, d1, d2);
        assert forall|x: int|
            #![trigger d2[x]]
            d2[x].store == d[x].store && lookup::full_info(geo, x, d2[x]) == lookup::full_info(
                geo,
                x,
                d[x],
            ) by {
            assert(d1[x].store == d[x].store);
        }
    }
}

/// Whether the unfinished records of `q` are still to come on a walk from the sector `o`
/// on that has come past `t` bytes.
pub open spec fn ahead(geo: Geo, o: int, t: int, q: Pending) -> bool {
    &&& q.del matches Some((b, j)) ==> ring::dist(geo, o, b) >= t
    &&& q.put matches Some((a, l)) ==> ring::dist(geo, o, a) >= t
}

/// One recovery pass finishes what is unfinished.
#[verifier::rlimit(60)]
pub proof fn lemma_recover_from(st: KvState, d: Map<int, Sect>, q: Pending, o: int, t: int) -> (d1: Map<
    int,
    Sect,
>)
    requires
        recovering(st, d),
        pends(st.geo, d, q),
        can_return(st.geo, d, q),
        ring::on_walk(st.geo, o, t),
        ahead(st.geo, o, t, q),
    ensures
        ({
            let st1 = model::recover_from(st, ring::at(st.geo, o, t), t);
            &&& st1 == (KvState { m: st1.m, ..st })
            &&& recovering(st1, d1)
            &&& pends(st.geo, d1, Pending { del: None, put: None })
            &&& gc::uncollected(st.geo, d) ==> gc::uncollected(st.geo, d1)
            &&& q.del matches Some((b, j)) ==> returned(st.geo, d, b, j, d1)
            &&& q.del is None ==> gc::same_live(st.geo, d, d1) && as_roomy(st.geo, d, d1)
        }),
    decreases st.geo.max - t,
{
    let geo = st.geo;
    let at = ring::at(geo, o, t);
    ring::lemma_walk(geo, o, t);
    image::lemma_head(st.m, geo, d, at);
    let s = model::sector_head(st.m, at);
    assert(image::sector_at(st.m.bytes, geo, at, d[at]));
    image::lemma_open_sector(st.m.bytes, geo, at, d[at]);
    lookup::lemma_next(geo, o, t, s);
    let n0 = Node { at: at + 16, ..model::blank_node() };
    let some = d[at].recs.len() > 0;
    assert(some == model::has_nodes(s));
    let st1 = if some {
        model::recover_in_sector(st, s, n0).0
    } else {
        st
    };
    let (d1, q1) = if some {
        assert(image::place(at, d[at].recs, 0) == at + 16);
        lemma_recover_in(st, d, q, at, s, 0, n0)
    } else {
        (d, q)
    };
    match q.del {
        Some((b, j)) => {
            ring::lemma_ahead(geo, o, t, b);
            ring::lemma_dist(geo, o, b);
        },
        None => {},
    }
    match q.put {
        Some((a, l)) => {
            ring::lemma_ahead(geo, o, t, a);
            ring::lemma_dist(geo, o, a);
        },
        None => {},
    }
    if t + geo.sec < geo.max {
        let d2 = lemma_recover_from(st1, d1, q1, o, t + geo.sec);
        match q.del {
            Some((b, j)) => {
                if b == at {
                    lemma_back_then_same(geo, d, b, j, d1, d2);
                } else {
                    lemma_same_then_back(geo, d, b, j, d1, d2);
                }
            },
            None => {
                gc::lemma_same_live_trans(geo, d, d1, d2);
            },
        }
        d2
    } else {
        assert(q1.del is None);
        assert(q1.put is None);
        d1
    }
}

/// At the start of a walk all unfinished records are still to come.
pub proof fn lemma_all_ahead(geo: Geo, d: Map<int, Sect>, o: int, q: Pending)
    requires
        model::geo_ok(geo),
        db::is_sector(geo, o),
        pends(geo, d, q),
    ensures
        ahead(geo, o, 0, q),
{
    match q.del {
        Some((b, j)) => {
            ring::lemma_dist(geo, o, b);
        },
        None => {},
    }
    match q.put {
        Some((a, l)) => {
            ring::lemma_dist(geo, o, a);
        },
        None => {},
    }
}

} // verus!
