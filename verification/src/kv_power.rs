//! What the key-value database promises of a power loss: whenever the power goes away in
//! the middle of an operation, a name reads as before or as it was to be once the database
//! was opened again, and no other name changes.
use vstd::prelude::*;

use crate::db;
use crate::db::Geo;
use crate::def;
use crate::def::{KvStatus, SectorDirtyStatus, SectorStoreStatus, KV_NAME_MAX};
use crate::flash;
use crate::kv_change as change;
use crate::kv_gc as gc;
use crate::kv_image as image;
use crate::kv_image::{Rec, Sect};
use crate::kv_iter as iter;
use crate::kv_laws as laws;
use crate::kv_lookup as lookup;
use crate::kv_model as model;
use crate::kv_model::{KvState, Node, SecInfo};
use crate::kv_open as open;
use crate::kv_recover as recover;
use crate::kv_recover::Pending;
use crate::kv_resume as resume;
use crate::kv_torn as torn;
use crate::ring;
use crate::status;
use crate::storage::Medium;

verus! {

/// The database `st` on a medium that loses its power after `n` more program and erase
/// operations.
pub open spec fn failing(st: KvState, n: nat) -> KvState {
    KvState { m: Medium { budget: Some(n), ..st.m }, ..st }
}

/// A medium once its power is back.
pub open spec fn powered_again(m: Medium) -> Medium {
    Medium { budget: None, ..m }
}

// -------------------------------------------------------------------------- deleting

/// Whether two images hold the same records and differ at most in which sectors are dirty.
pub open spec fn same_records(d: Map<int, Sect>, d1: Map<int, Sect>) -> bool {
    forall|a: int|
        #![trigger d[a]]
        #![trigger d1[a]]
        d1[a].recs == d[a].recs && d1[a].store == d[a].store && (d1[a].dirty == d[a].dirty
            || d1[a].dirty == SectorDirtyStatus::False)
}

proof fn lemma_same_records(geo: Geo, d: Map<int, Sect>, d1: Map<int, Sect>)
    requires
        same_records(d, d1),
    ensures
        gc::same_live(geo, d, d1),
        gc::unique(geo, d) ==> gc::unique(geo, d1),
        gc::at_rest(geo, d) ==> gc::at_rest(geo, d1),
        gc::uncollected(geo, d) ==> gc::uncollected(geo, d1),
        lookup::has_empty(geo, d) ==> lookup::has_empty(geo, d1),
        iter::all_sound(geo, d) ==> iter::all_sound(geo, d1),
{
    assert forall|a: int, j: int| #[trigger] gc::live(geo, d1, a, j) == gc::live(geo, d, a, j) by {
        assert(d1[a].recs == d[a].recs);
    }
    assert forall|name: Seq<u8>, v: Seq<u8>| #[trigger]
        gc::has_live(geo, d1, name, v) <==> gc::has_live(geo, d, name, v) by {
        if gc::has_live(geo, d1, name, v) {
            let (a, j) = choose|a: int, j: int| gc::live_as(geo, d1, a, j, name, v);
            assert(gc::live_as(geo, d, a, j, name, v));
        }
        if gc::has_live(geo, d, name, v) {
            let (a, j) = choose|a: int, j: int| gc::live_as(geo, d, a, j, name, v);
            assert(gc::live_as(geo, d1, a, j, name, v));
        }
    }
    if gc::unique(geo, d) {
        assert forall|a: int, j: int, b: int, k: int|
            #![trigger gc::live(geo, d1, a, j), gc::live(geo, d1, b, k)]
            gc::live(geo, d1, a, j) && gc::live(geo, d1, b, k) && d1[a].recs[j].name
                == d1[b].recs[k].name implies a == b && j
            == k by {
            assert(gc::live(geo, d, a, j) && gc::live(geo, d, b, k));
        }
    }
    if gc::at_rest(geo, d) {
        assert forall|a: int, j: int|
            db::is_sector(geo, a) && 0 <= j < d1[a].recs.len() implies (
        #[trigger] d1[a].recs[j]).status != KvStatus::PreDelete && d1[a].recs[j].status
            != KvStatus::PreWrite by {
            assert(d[a].recs[j].status != KvStatus::PreDelete);
        }
    }
    if iter::all_sound(geo, d) {
        assert forall|a: int, j: int|
            db::is_sector(geo, a) && 0 <= j < d1[a].recs.len() implies (
        #[trigger] d1[a].recs[j]).sound by {
            assert(d[a].recs[j].sound);
        }
    }
    if lookup::has_empty(geo, d) {
        let e = choose|x: int|
            db::is_sector(geo, x) && (#[trigger] d[x]).store == SectorStoreStatus::Empty;
        assert(d1[e].store == SectorStoreStatus::Empty);
    }
}

/// Marking a record on a medium that may lose its power: nothing happens, the record is
/// marked, or its sector is marked as dirty too.
proof fn lemma_delete_cut(
    m: Medium,
    geo: Geo,
    d: Map<int, Sect>,
    at: int,
    i: int,
    complete: bool,
) -> (d1: Map<int, Sect>)
    requires
        image::holds_image(m, geo, d),
        db::is_sector(geo, at),
        0 <= i < d[at].recs.len(),
        d[at].recs[i].sound,
        def::kv_index_of(d[at].recs[i].status) <= def::kv_index_of(change::gone(complete)),
    ensures
        ({
            let a = image::place(at, d[at].recs, i);
            let (m1, r) = model::delete_at(m, geo, a, complete);
            let done = d.insert(at, change::struck(d[at], i, change::gone(complete)));
            &&& image::holds_image(m1, geo, d1)
            &&& m1.bytes.len() == m.bytes.len()
            &&& r is Ok ==> d1 == done
            &&& r is Err ==> !m1.powered()
            &&& d1 == d || same_records(done, d1)
        }),
{
    reveal(model::delete_at);
    let a = image::place(at, d[at].recs, i);
    let st = change::gone(complete);
    let done = d.insert(at, change::struck(d[at], i, st));
    assert(image::sector_at(m.bytes, geo, at, d[at]));
    image::lemma_place(m.bytes, geo, at, d[at], i);
    let m1 = flash::put_status(m, a, def::kv_index_of(st), complete);
    if !m.powered() {
        d
    } else {
        change::lemma_put_rec_status(m, geo, d, at, i, st, complete);
        let d1 = d.insert(at, change::with_status(d[at], i, st));
        change::lemma_dirty_place(geo, at, a);
        change::lemma_dirty_read(m1, geo, d1, at);
        if d[at].dirty == SectorDirtyStatus::False {
            if m1.powered() {
                change::lemma_put_dirty(m1, geo, d1, at, SectorDirtyStatus::True);
                assert(d1.insert(at, Sect { dirty: SectorDirtyStatus::True, ..d1[at] }) =~= done);
                done
            } else {
                d1
            }
        } else {
            assert(d1[at] == done[at]);
            assert(d1 =~= done);
            d1
        }
    }
}

/// The power goes away while a name is deleted. Once the database was opened again the
/// name reads as before or is gone, and every other name reads as before. Where no sector was
/// being collected there is as much room for records as before, and where all records were
/// sound they still are.
pub proof fn power_loss_in_delete(
    st: KvState,
    d: Map<int, Sect>,
    key: Seq<u8>,
    n: nat,
    defaults: Seq<(Seq<u8>, Seq<u8>)>,
    fixed: bool,
) -> (d1: Map<int, Sect>)
    requires
        laws::fair(st, d),
    ensures
        ({
            let lost = model::delete(failing(st, n), key).0;
            let (st1, r) = model::open_db(powered_again(lost.m), st.geo, defaults, fixed);
            &&& r is Ok
            &&& laws::fair(st1, d1)
            &&& model::lookup(st1, key) == model::lookup(st, key) || model::lookup(
                st1,
                key,
            ) is None
            &&& forall|k: Seq<u8>|
                k != key
                    ==> #[trigger] model::lookup(st1, k) == model::lookup(st, k)
            &&& gc::uncollected(st.geo, d) ==> gc::uncollected(st.geo, d1)
            &&& open::tidy(st.geo, d) ==> open::tidy(st.geo, d1)
            &&& gc::uncollected(st.geo, d) ==> forall|size: int| #[trigger]
                gc::has_space(st.geo, d, size) ==> gc::has_space(st.geo, d1, size)
        }),
{
    let geo = st.geo;
    let st0 = failing(st, n);
    lookup::lemma_find(st0, d, key);
    let (m1, node, found) = model::find(st0, key);
    let lost = model::delete(st0, key).0;
    let sta = KvState { m: powered_again(lost.m), ..st };
    let d1 = if found {
        let (a, j) = choose|a: int, j: int| #[trigger]
            lookup::hit(geo, d, a, j, key) && lookup::shown(d, a, j, node);
        laws::lemma_hit_live(geo, d, a, j, key);
        let d1 = lemma_delete_cut(m1, geo, d, a, j, true);
        laws::lemma_struck_out(geo, d, a, j, true);
        let done = d.insert(a, change::struck(d[a], j, KvStatus::Deleted));
        assert(lookup::has_empty(geo, done)) by {
            let e = choose|x: int|
                db::is_sector(geo, x) && (#[trigger] d[x]).store == SectorStoreStatus::Empty;
            assert(done[e].store == SectorStoreStatus::Empty);
        }
        if iter::all_sound(geo, d) {
            assert forall|b: int, k: int|
                db::is_sector(geo, b) && 0 <= k < done[b].recs.len() implies (
            #[trigger] done[b].recs[k]).sound by {
                assert(d[b].recs[k].sound);
            }
        }
        if d1 != d {
            lemma_same_records(geo, done, d1);
        }
        assert(gc::within(geo, d, d1, 0)) by {
            assert forall|x: int| db::is_sector(geo, x) implies image::span(
                (#[trigger] d1[x]).recs,
            ) <= image::span(d[x].recs) && d1[x].store == d[x].store by {
                assert(image::span(done[x].recs) == image::span(d[x].recs));
                assert(done[x].store == d[x].store);
            }
        }
        d1
    } else {
        d
    };
    assert(laws::fair(sta, d1));
    let d2 = open::reopen_keeps_contents(sta, d1, defaults, fixed);
    if gc::uncollected(geo, d) {
        assert forall|size: int| #[trigger] gc::has_space(geo, d, size) implies gc::has_space(
            geo,
            d1,
            size,
        ) by {
            gc::lemma_within_space(st.m, sta.m, geo, d, d1, 0, size);
        }
    }
    let st1 = model::open_db(sta.m, geo, defaults, fixed).0;
    assert forall|name: Seq<u8>, v: Seq<u8>|
        name != key implies #[trigger] gc::has_live(geo, d1, name, v) == gc::has_live(
        geo,
        d,
        name,
        v,
    ) by {}
    laws::lookup_gives_the_live_value(sta, d1, key);
    laws::lookup_gives_the_live_value(st, d, key);
    assert(model::lookup(st1, key) == model::lookup(sta, key));
    if model::lookup(sta, key) is Some {
        let v = model::lookup(sta, key).unwrap();
        assert(gc::has_live(geo, d1, key, v));
        assert(gc::has_live(geo, d, key, v));
    }
    assert forall|k: Seq<u8>|
        k != key implies #[trigger] model::lookup(
        st1,
        k,
    ) == model::lookup(st, k) by {
        assert(model::lookup(st1, k) == model::lookup(sta, k));
        laws::lemma_same_lookup(st, d, sta, d1, k);
    }
    d2
}

// --------------------------------------------------------------------------- setting

// What a power loss leaves of a record does not change what is live.

/// One more record that is not live.
pub proof fn lemma_append_dead(geo: Geo, d: Map<int, Sect>, a: int, r: Rec)
    requires
        r.status != KvStatus::Write,
    ensures
        ({
            let d1 = d.insert(a, change::appended(d[a], r));
            &&& gc::same_live(geo, d, d1)
            &&& gc::unique(geo, d) ==> gc::unique(geo, d1)
        }),
{
    let d1 = d.insert(a, change::appended(d[a], r));
    let n = d[a].recs.len() as int;
    assert forall|x: int, y: int| #[trigger] gc::live(geo, d1, x, y) == gc::live(geo, d, x, y) by {
        if x == a {
            if y == n {
                assert(d1[a].recs[n] == r);
            } else if 0 <= y < n {
                assert(d1[a].recs[y] == d[a].recs[y]);
            }
        }
    }
    lemma_same_shown(geo, d, d1);
}

/// Padding behind the last record.
pub proof fn lemma_pad_live(geo: Geo, d: Map<int, Sect>, a: int)
    requires
        d[a].recs.len() > 0,
    ensures
        ({
            let d1 = d.insert(a, torn::padded_on(d[a]));
            &&& gc::same_live(geo, d, d1)
            &&& gc::unique(geo, d) ==> gc::unique(geo, d1)
        }),
{
    let d1 = d.insert(a, torn::padded_on(d[a]));
    assert forall|x: int, y: int| #[trigger] gc::live(geo, d1, x, y) == gc::live(geo, d, x, y) by {}
    lemma_same_shown(geo, d, d1);
}

/// What is live depends on the names and values of the live records alone.
proof fn lemma_same_shown(geo: Geo, d: Map<int, Sect>, d1: Map<int, Sect>)
    requires
        forall|x: int, y: int| #[trigger] gc::live(geo, d1, x, y) == gc::live(geo, d, x, y),
        forall|x: int, y: int| #[trigger]
            gc::live(geo, d1, x, y) ==> d1[x].recs[y].name == d[x].recs[y].name
                && d1[x].recs[y].value == d[x].recs[y].value,
    ensures
        gc::same_live(geo, d, d1),
        gc::unique(geo, d) ==> gc::unique(geo, d1),
{
    assert forall|name: Seq<u8>, v: Seq<u8>| #[trigger]
        gc::has_live(geo, d1, name, v) <==> gc::has_live(geo, d, name, v) by {
        if gc::has_live(geo, d1, name, v) {
            let (x, y) = choose|x: int, y: int| gc::live_as(geo, d1, x, y, name, v);
            assert(gc::live(geo, d1, x, y));
            assert(gc::live_as(geo, d, x, y, name, v));
        }
        if gc::has_live(geo, d, name, v) {
            let (x, y) = choose|x: int, y: int| gc::live_as(geo, d, x, y, name, v);
            assert(gc::live(geo, d1, x, y));
            assert(gc::live_as(geo, d1, x, y, name, v));
        }
    }
    if gc::unique(geo, d) {
        assert forall|x: int, y: int, b: int, k: int|
            #![trigger gc::live(geo, d1, x, y), gc::live(geo, d1, b, k)]
            gc::live(geo, d1, x, y) && gc::live(geo, d1, b, k) && d1[x].recs[y].name
                == d1[b].recs[k].name implies x == b && y
            == k by {
            assert(gc::live(geo, d, x, y) && gc::live(geo, d, b, k));
        }
    }
}

/// What the image `d1` is that a power loss left of adding a record to the sector at `a`
/// of the image `d`: what is live and what is unfinished in it.
pub open spec fn left_unfinished(
    geo: Geo,
    d: Map<int, Sect>,
    q: Pending,
    a: int,
    key: Seq<u8>,
    value: Seq<u8>,
    d1: Map<int, Sect>,
    q1: Pending,
) -> bool {
    &&& recover::pends(geo, d1, q1)
    &&& q1.del == q.del
    &&& q1.put is None || q1.put == Some((a, d[a].recs.len() as int))
    &&& gc::unique(geo, d1)
    &&& gc::uncollected(geo, d) ==> gc::uncollected(geo, d1)
    &&& lookup::has_empty(geo, d1)
    &&& gc::within(geo, d, d1, model::record_len(key, value))
    &&& forall|name: Seq<u8>, v: Seq<u8>|
        name != key ==> (#[trigger] gc::has_live(geo, d1, name, v) <==> gc::has_live(
            geo,
            d,
            name,
            v,
        ))
    &&& forall|v: Seq<u8>| #[trigger] gc::has_live(geo, d1, key, v) ==> v == value
    &&& q.del matches Some((b, j)) ==> {
        &&& d1[b].recs[j].name == d[b].recs[j].name
        &&& d1[b].recs[j].value == d[b].recs[j].value
        &&& image::body(d1[b].recs[j]) == image::body(d[b].recs[j])
        &&& image::place(b, d1[b].recs, j) == image::place(b, d[b].recs, j)
    }
}

/// The sectors of an image stay as they are but for the one at `a`, which is in use.
proof fn lemma_left_sectors(geo: Geo, d: Map<int, Sect>, a: int, s1: Sect)
    requires
        db::is_sector(geo, a),
        lookup::has_empty(geo, d),
        d[a].store == SectorStoreStatus::Using || (d[a].store == SectorStoreStatus::Empty
            && lookup::has_two_empty(geo, d)),
        s1.store == SectorStoreStatus::Using,
        s1.dirty == d[a].dirty,
    ensures
        gc::uncollected(geo, d) ==> gc::uncollected(geo, d.insert(a, s1)),
        lookup::has_empty(geo, d.insert(a, s1)),
{
    let d1 = d.insert(a, s1);
    if gc::uncollected(geo, d) {
        assert forall|x: int| db::is_sector(geo, x) implies (#[trigger] d1[x]).dirty
            != SectorDirtyStatus::Gc by {
            assert(d[x].dirty != SectorDirtyStatus::Gc);
        }
    }
    if d[a].store == SectorStoreStatus::Using {
        let e = choose|x: int|
            db::is_sector(geo, x) && (#[trigger] d[x]).store == SectorStoreStatus::Empty;
        assert(d1[e].store == SectorStoreStatus::Empty);
    } else {
        let (x, y) = choose|x: int, y: int|
            #![trigger d[x], d[y]]
            x != y && db::is_sector(geo, x) && db::is_sector(geo, y) && d[x].store
                == SectorStoreStatus::Empty && d[y].store == SectorStoreStatus::Empty;
        if x != a {
            assert(d1[x].store == SectorStoreStatus::Empty);
        } else {
            assert(d1[y].store == SectorStoreStatus::Empty);
        }
    }
}

/// One more record that is neither live nor about to be deleted.
proof fn lemma_left_appended(
    geo: Geo,
    d: Map<int, Sect>,
    q: Pending,
    a: int,
    key: Seq<u8>,
    value: Seq<u8>,
    r: Rec,
) -> (q1: Pending)
    requires
        recover::pends(geo, d, q),
        q.put is None,
        db::is_sector(geo, a),
        gc::unique(geo, d),
        lookup::has_empty(geo, d),
        d[a].store == SectorStoreStatus::Using || (d[a].store == SectorStoreStatus::Empty
            && lookup::has_two_empty(geo, d)),
        forall|v: Seq<u8>| !#[trigger] gc::has_live(geo, d, key, v),
        r.status != KvStatus::PreDelete,
        r.status == KvStatus::Write ==> r == change::live_rec(key, value),
        r.pad == 0,
        0 <= image::size(r) <= model::record_len(key, value),
    ensures
        left_unfinished(
            geo,
            d,
            q,
            a,
            key,
            value,
            d.insert(a, change::appended(d[a], r)),
            q1,
        ),
{
    let s1 = change::appended(d[a], r);
    let d1 = d.insert(a, s1);
    let n = d[a].recs.len() as int;
    let q1 = Pending {
        put: if r.status == KvStatus::PreWrite {
            Some((a, n))
        } else {
            None
        },
        ..q
    };
    assert forall|x: int, y: int| db::is_sector(geo, x) && 0 <= y < d1[x].recs.len() implies ((
    #[trigger] d1[x].recs[y]).status == KvStatus::PreDelete <==> q1.del == Some((x, y))) && (
    d1[x].recs[y].status == KvStatus::PreWrite <==> q1.put == Some((x, y))) by {
        if x == a && y == n {
            assert(d1[a].recs[n] == r);
        } else {
            assert(d1[x].recs[y] == d[x].recs[y]);
            let o = d[x].recs[y];
        }
    }
    match q.del {
        Some((b, j)) => {
            assert(d1[b].recs[j] == d[b].recs[j]);
            image::lemma_reach_same(d1[b].recs, d[b].recs, j);
        },
        None => {},
    }
    lemma_left_sectors(geo, d, a, s1);
    gc::lemma_push_span(d[a].recs, r);
    image::lemma_reach_same(s1.recs, d[a].recs, n);
    assert(gc::within(geo, d, d1, model::record_len(key, value))) by {
        assert forall|x: int| db::is_sector(geo, x) implies image::span((#[trigger] d1[x]).recs)
            <= image::span(d[x].recs) + model::record_len(key, value) && (d1[x].store == d[x].store
            || (d[x].store == SectorStoreStatus::Empty && d1[x].store
            == SectorStoreStatus::Using)) by {
            assert(x != a ==> d1[x] == d[x]);
        }
    }
    if r.status == KvStatus::Write {
        laws::lemma_added(geo, d, a, key, value);
    } else {
        lemma_append_dead(geo, d, a, r);
    }
    q1
}

/// Padding behind the last record.
proof fn lemma_left_padded(
    geo: Geo,
    d: Map<int, Sect>,
    q: Pending,
    a: int,
    key: Seq<u8>,
    value: Seq<u8>,
)
    requires
        recover::pends(geo, d, q),
        q.put is None,
        db::is_sector(geo, a),
        gc::unique(geo, d),
        lookup::has_empty(geo, d),
        d[a].store == SectorStoreStatus::Using,
        d[a].recs.len() > 0,
        d[a].recs.last().pad >= 0,
        forall|v: Seq<u8>| !#[trigger] gc::has_live(geo, d, key, v),
    ensures
        left_unfinished(geo, d, q, a, key, value, d.insert(a, torn::padded_on(d[a])), q),
{
    let s1 = torn::padded_on(d[a]);
    let d1 = d.insert(a, s1);
    let last = d[a].recs.len() - 1;
    assert forall|x: int, y: int| db::is_sector(geo, x) && 0 <= y < d1[x].recs.len() implies ((
    #[trigger] d1[x].recs[y]).status == KvStatus::PreDelete <==> q.del == Some((x, y))) && (
    d1[x].recs[y].status == KvStatus::PreWrite <==> q.put == Some((x, y))) by {
        let o = d[x].recs[y];
        assert(d1[x].recs[y].status == o.status);
    }
    lemma_left_sectors(geo, d, a, s1);
    lemma_pad_live(geo, d, a);
    assert(image::reach(s1.recs, last) == image::reach(d[a].recs, last)) by {
        image::lemma_reach_same(s1.recs, d[a].recs, last);
    }
    assert(image::span(s1.recs) == image::span(d[a].recs) + 1);
    assert(gc::within(geo, d, d1, model::record_len(key, value))) by {
        assert forall|x: int| db::is_sector(geo, x) implies image::span((#[trigger] d1[x]).recs)
            <= image::span(d[x].recs) + model::record_len(key, value) && d1[x].store
            == d[x].store by {
            assert(x != a ==> d1[x] == d[x]);
        }
    }
    match q.del {
        Some((b, j)) => {
            image::lemma_reach_same(d1[b].recs, d[b].recs, j);
        },
        None => {},
    }
}

/// What a power loss leaves of adding a record.
proof fn lemma_left(
    m: Medium,
    geo: Geo,
    d: Map<int, Sect>,
    q: Pending,
    a: int,
    key: Seq<u8>,
    value: Seq<u8>,
    d1: Map<int, Sect>,
) -> (q1: Pending)
    requires
        image::holds_image(m, geo, d),
        recover::pends(geo, d, q),
        q.put is None,
        db::is_sector(geo, a),
        gc::unique(geo, d),
        lookup::has_empty(geo, d),
        d[a].store == SectorStoreStatus::Using || (d[a].store == SectorStoreStatus::Empty
            && lookup::has_two_empty(geo, d)),
        forall|v: Seq<u8>| !#[trigger] gc::has_live(geo, d, key, v),
        torn::left_of(d, a, key, value, d1),
    ensures
        left_unfinished(geo, d, q, a, key, value, d1, q1),
{
    let s = d[a];
    assert(image::sector_at(m.bytes, geo, a, s));
    image::lemma_open_sector(m.bytes, geo, a, s);
    if d1 == d {
        q
    } else if s.recs.len() == 0 && d1 == d.insert(a, change::appended(s, torn::blank_rec())) {
        lemma_left_appended(geo, d, q, a, key, value, torn::blank_rec())
    } else if s.recs.len() > 0 && d1 == d.insert(a, torn::padded_on(s)) {
        image::lemma_place(m.bytes, geo, a, s, s.recs.len() - 1);
        lemma_left_padded(geo, d, q, a, key, value);
        q
    } else if d1 == d.insert(a, change::appended(s, change::live_rec(key, value))) {
        lemma_left_appended(geo, d, q, a, key, value, change::live_rec(key, value))
    } else {
        let r = choose|r: Rec| #[trigger]
            torn::half(r, model::record_len(key, value)) && d1 == d.insert(
                a,
                change::appended(s, r),
            );
        lemma_left_appended(geo, d, q, a, key, value, r)
    }
}

/// What is unfinished depends on the records alone.
proof fn lemma_same_pends(geo: Geo, d: Map<int, Sect>, d1: Map<int, Sect>, q: Pending)
    requires
        same_records(d, d1),
        recover::pends(geo, d, q),
    ensures
        recover::pends(geo, d1, q),
{
    assert forall|x: int, y: int| db::is_sector(geo, x) && 0 <= y < d1[x].recs.len() implies ((
    #[trigger] d1[x].recs[y]).status == KvStatus::PreDelete <==> q.del == Some((x, y))) && (
    d1[x].recs[y].status == KvStatus::PreWrite <==> q.put == Some((x, y))) by {
        let o = d[x].recs[y];
    }
    match q.del {
        Some((b, j)) => {
            assert(d1[b].recs == d[b].recs);
        },
        None => {},
    }
    match q.put {
        Some((a, l)) => {
            assert(d1[a].recs == d[a].recs);
        },
        None => {},
    }
}

/// Marking a live record as about to be deleted.
proof fn lemma_marked(geo: Geo, d: Map<int, Sect>, b: int, j: int, d1: Map<int, Sect>)
    requires
        gc::live(geo, d, b, j),
        gc::unique(geo, d),
        gc::at_rest(geo, d),
        lookup::has_empty(geo, d),
        same_records(d.insert(b, change::struck(d[b], j, KvStatus::PreDelete)), d1),
    ensures
        recover::pends(geo, d1, (Pending { del: Some((b, j)), put: None })),
        gc::unique(geo, d1),
        gc::uncollected(geo, d) ==> gc::uncollected(geo, d1),
        lookup::has_empty(geo, d1),
        lookup::has_two_empty(geo, d) ==> lookup::has_two_empty(geo, d1),
        forall|name: Seq<u8>, v: Seq<u8>| #[trigger]
            gc::has_live(geo, d1, name, v) <==> name != d[b].recs[j].name && gc::has_live(
                geo,
                d,
                name,
                v,
            ),
        forall|x: int| (#[trigger] d1[x]).store == d[x].store,
        forall|x: int| image::span((#[trigger] d1[x]).recs) == image::span(d[x].recs),
        forall|x: int| (#[trigger] d1[x]).recs.len() == d[x].recs.len(),
        d1[b].recs[j] == (Rec { status: KvStatus::PreDelete, ..d[b].recs[j] }),
        image::place(b, d1[b].recs, j) == image::place(b, d[b].recs, j),
{
    let done = d.insert(b, change::struck(d[b], j, KvStatus::PreDelete));
    let key = d[b].recs[j].name;
    let q = Pending { del: Some((b, j)), put: None };
    laws::lemma_struck_out(geo, d, b, j, false);
    laws::lemma_still_empty(geo, d, done);
    assert forall|x: int, y: int| db::is_sector(geo, x) && 0 <= y < done[x].recs.len() implies ((
    #[trigger] done[x].recs[y]).status == KvStatus::PreDelete <==> q.del == Some((x, y))) && (
    done[x].recs[y].status == KvStatus::PreWrite <==> q.put == Some((x, y))) by {
        let o = d[x].recs[y];
        if x == b && y == j {
        } else {
            assert(done[x].recs[y] == o);
        }
    }
    lemma_same_records(geo, done, d1);
    lemma_same_pends(geo, done, d1, q);
    assert forall|x: int| (#[trigger] d1[x]).store == d[x].store by {
        assert(done[x].store == d[x].store);
    }
    assert forall|x: int| image::span((#[trigger] d1[x]).recs) == image::span(d[x].recs) by {
        assert(image::span(done[x].recs) == image::span(d[x].recs));
    }
    assert forall|x: int| (#[trigger] d1[x]).recs.len() == d[x].recs.len() by {
        assert(done[x].recs.len() == d[x].recs.len());
    }
    assert forall|name: Seq<u8>, v: Seq<u8>| #[trigger]
        gc::has_live(geo, d1, name, v) <==> name != key && gc::has_live(geo, d, name, v) by {
        assert(gc::has_live(geo, d1, name, v) <==> gc::has_live(geo, done, name, v));
    }
    laws::lemma_still_empty(geo, d, d1);
    assert(d1[b].recs == done[b].recs);
    gc::lemma_struck_place(b, d[b], j, KvStatus::PreDelete, j);
}

/// What a power loss leaves of setting `key` to `value` in the sector at `a` of a database
/// with the image `d`: the medium `m` holds the image `d1` with the unfinished records `q`.
pub open spec fn lost(
    geo: Geo,
    d: Map<int, Sect>,
    a: int,
    key: Seq<u8>,
    value: Seq<u8>,
    m: Medium,
    d1: Map<int, Sect>,
    q: Pending,
) -> bool {
    &&& image::holds_image(m, geo, d1)
    &&& recover::pends(geo, d1, q)
    &&& gc::unique(geo, d1)
    &&& gc::uncollected(geo, d) ==> gc::uncollected(geo, d1)
    &&& lookup::has_empty(geo, d1)
    &&& gc::within(geo, d, d1, model::record_len(key, value))
    &&& forall|name: Seq<u8>, v: Seq<u8>|
        name != key ==> (#[trigger] gc::has_live(geo, d1, name, v) <==> gc::has_live(
            geo,
            d,
            name,
            v,
        ))
    &&& forall|v: Seq<u8>| #[trigger]
        gc::has_live(geo, d1, key, v) ==> v == value || gc::has_live(geo, d, key, v)
    &&& q.del matches Some((b, j)) ==> {
        &&& gc::live_as(geo, d, b, j, key, d1[b].recs[j].value)
        &&& d1[b].recs[j].name == key
        &&& image::body(d1[b].recs[j]) == image::body(d[b].recs[j])
        &&& image::place(b, d1[b].recs, j) == image::place(b, d[b].recs, j)
    }
    &&& q.del is None && recover::known(geo, d, key) ==> recover::known(geo, d1, key)
}

/// What a power loss leaves of putting a value over a live record.
#[verifier::rlimit(60)]
proof fn lemma_over_lost(
    st: KvState,
    d: Map<int, Sect>,
    a: int,
    s: SecInfo,
    b: int,
    j: int,
    n: Node,
    key: Seq<u8>,
    value: Seq<u8>,
) -> (out: (Map<int, Sect>, Pending))
    requires
        image::holds_image(st.m, st.geo, d),
        !st.gc_request,
        gc::unique(st.geo, d),
        gc::at_rest(st.geo, d),
        lookup::has_empty(st.geo, d),
        key.len() <= KV_NAME_MAX,
        lookup::slot_in(st.geo, d, a, model::record_len(key, value), false, s),
        gc::live(st.geo, d, b, j),
        d[b].recs[j].name == key,
        lookup::shown(d, b, j, n),
    ensures
        ({
            let (m1, r1) = model::delete_at(st.m, st.geo, n.at, false);
            let (st2, r2) = match r1 {
                Err(e) => (KvState { m: m1, ..st }, Err(e)),
                Ok(_) => model::create(KvState { m: m1, ..st }, Some(s), key, value),
            };
            let m3 = if r2 is Ok {
                model::delete_at(st2.m, st.geo, n.at, true).0
            } else {
                st2.m
            };
            &&& !st2.gc_request
            &&& lost(st.geo, d, a, key, value, m3, out.0, out.1)
        }),
{
    let geo = st.geo;
    let size = model::record_len(key, value);
    let rec = d[b].recs[j];
    assert(gc::live_as(geo, d, b, j, key, rec.value));
    assert(gc::has_live(geo, d, key, rec.value));
    lookup::lemma_span(st.m, geo, d, a);
    let da = lemma_delete_cut(st.m, geo, d, b, j, false);
    let (m1, r1) = model::delete_at(st.m, geo, n.at, false);
    let none = Pending { del: None, put: None };
    let marked = Pending { del: Some((b, j)), put: None };
    if da == d {
        assert forall|x: int, y: int| db::is_sector(geo, x) && 0 <= y < d[x].recs.len() implies ((
        #[trigger] d[x].recs[y]).status == KvStatus::PreDelete <==> none.del == Some((x, y)))
            && (d[x].recs[y].status == KvStatus::PreWrite <==> none.put == Some((x, y))) by {}
        if r1 is Ok {
            assert(change::struck(d[b], j, KvStatus::PreDelete).recs[j].status
                == KvStatus::PreDelete);
            assert(d[b].recs[j].status == KvStatus::Write);
            assert(d.insert(b, change::struck(d[b], j, KvStatus::PreDelete))[b] == d[b]);
        }
        (d, none)
    } else {
        lemma_marked(geo, d, b, j, da);
        if r1 is Err {
            (da, marked)
        } else {
            let sta = KvState { m: m1, ..st };
            assert(lookup::has_two_empty(geo, d) ==> lookup::has_two_empty(geo, da));
            assert(da[a].store == d[a].store && image::span(da[a].recs) == image::span(d[a].recs));
            let dc = torn::lemma_create_cut(sta, da, a, s, key, value);
            let (st2, r2) = model::create_in(sta, s, key, value);
            assert forall|v: Seq<u8>| !#[trigger] gc::has_live(geo, da, key, v) by {}
            let qc = lemma_left(m1, geo, da, marked, a, key, value, dc);
            if r2 is Err {
                (dc, qc)
            } else {
                // The new record is live, the old one is deleted.
                laws::lemma_added(geo, da, a, key, value);
                assert(dc == laws::added(da, a, key, value));
                assert(qc == marked) by {
                    if qc.put is Some {
                        let l = da[a].recs.len() as int;
                        assert(dc[a].recs[l] == change::live_rec(key, value));
                        assert(dc[a].recs[l].status == KvStatus::PreWrite);
                    }
                }
                assert(dc[b].recs[j] == da[b].recs[j]);
                assert(image::place(b, dc[b].recs, j) == n.at) by {
                    image::lemma_reach_same(dc[b].recs, d[b].recs, j);
                }
                let dd = lemma_delete_cut(st2.m, geo, dc, b, j, true);
                assert(gc::has_live(geo, dc, key, value));
                if dd == dc {
                    (dd, marked)
                } else {
                    let done = recover::dropped(dc, b, j);
                    recover::lemma_dropped(geo, dc, marked, b, j);
                    lemma_same_records(geo, done, dd);
                    lemma_same_pends(geo, done, dd, none);
                    assert(gc::has_live(geo, done, key, value) <==> gc::has_live(
                        geo,
                        dc,
                        key,
                        value,
                    ));
                    assert(gc::has_live(geo, dd, key, value));
                    assert forall|x: int| (#[trigger] dd[x]).store == dc[x].store && image::span(
                        dd[x].recs,
                    ) == image::span(dc[x].recs) by {
                        assert(done[x].store == dc[x].store);
                        if x == b {
                            gc::lemma_struck_place(
                                b,
                                dc[b],
                                j,
                                KvStatus::Deleted,
                                dc[b].recs.len() as int,
                            );
                        }
                    }
                    assert forall|name: Seq<u8>, v: Seq<u8>| #[trigger]
                        gc::has_live(geo, dd, name, v) <==> gc::has_live(geo, dc, name, v) by {
                        assert(gc::has_live(geo, done, name, v) <==> gc::has_live(
                            geo,
                            dc,
                            name,
                            v,
                        ));
                    }
                    (dd, none)
                }
            }
        }
    }
}

/// What a power loss leaves of putting a value where room was found for it.
proof fn lemma_put_lost(
    st: KvState,
    d: Map<int, Sect>,
    a: int,
    s: SecInfo,
    key: Seq<u8>,
    value: Seq<u8>,
) -> (out: (Map<int, Sect>, Pending))
    requires
        image::holds_image(st.m, st.geo, d),
        db::is_sector(st.geo, st.oldest),
        !st.gc_request,
        gc::unique(st.geo, d),
        gc::at_rest(st.geo, d),
        lookup::has_empty(st.geo, d),
        key.len() <= KV_NAME_MAX,
        lookup::slot_in(st.geo, d, a, model::record_len(key, value), false, s),
    ensures
        lost(
            st.geo,
            d,
            a,
            key,
            value,
            model::put_in(st, s, key, value).0.m,
            out.0,
            out.1,
        ),
{
    let geo = st.geo;
    lookup::lemma_find(st, d, key);
    let (m2, n, found) = model::find(st, key);
    let stb = KvState { m: m2, ..st };
    if found {
        let (b, j) = choose|b: int, j: int| #[trigger]
            lookup::hit(geo, d, b, j, key) && lookup::shown(d, b, j, n);
        laws::lemma_hit_live(geo, d, b, j, key);
        assert(d[b].recs[j].name == key);
        lemma_over_lost(stb, d, a, s, b, j, n, key, value)
    } else {
        assert forall|v: Seq<u8>| !#[trigger] gc::has_live(geo, d, key, v) by {
            if gc::has_live(geo, d, key, v) {
                let (b, k) = laws::lemma_live_hit(geo, d, key, v);
            }
        }
        let none = Pending { del: None, put: None };
        assert forall|x: int, y: int| db::is_sector(geo, x) && 0 <= y < d[x].recs.len() implies ((
        #[trigger] d[x].recs[y]).status == KvStatus::PreDelete <==> none.del == Some((x, y)))
            && (d[x].recs[y].status == KvStatus::PreWrite <==> none.put == Some((x, y))) by {}
        lookup::lemma_span(m2, geo, d, a);
        let dc = torn::lemma_create_cut(stb, d, a, s, key, value);
        let qc = lemma_left(m2, geo, d, none, a, key, value, dc);
        (dc, qc)
    }
}

/// The sector that room is found in for a value that is to be set on a medium that loses
/// its power after `n` more operations.
pub open spec fn target(st: KvState, n: nat, size: int) -> Option<SecInfo> {
    model::find_room(failing(st, n), size).1
}

/// Whether opening a database on the medium `m`, which a power loss left of replacing the
/// `j`th record of the sector at `b` of the image `d`, brings that record back where it is
/// about to be deleted.
///
/// Its sector is dirty and gets collected, or there is room for it, be it at once or after
/// opening has collected garbage. The sector is marked as dirty right after the record is, so
/// that only a power loss between the two can leave a record that does not come back.
pub open spec fn can_bring_back(
    geo: Geo,
    d: Map<int, Sect>,
    m: Medium,
    b: int,
    j: int,
    defaults: Seq<(Seq<u8>, Seq<u8>)>,
    fixed: bool,
) -> bool {
    let size = image::body(d[b].recs[j]);
    let st = resume::opening(m, geo, defaults, fixed);
    m.bytes[image::place(b, d[b].recs, j)] == status::status_byte(3) ==> {
        ||| model::sector_head(m, b).dirty != SectorDirtyStatus::False
        ||| model::find_room(resume::resumed(st), size).1 is Some
        ||| model::find_room(resume::collected(st), size).1 is Some
    }
}

/// Whether opening a database once the power went away while `key` was set to `value` brings
/// back the record that `key` had before.
pub open spec fn recoverable(
    st: KvState,
    d: Map<int, Sect>,
    key: Seq<u8>,
    value: Seq<u8>,
    n: nat,
    defaults: Seq<(Seq<u8>, Seq<u8>)>,
    fixed: bool,
) -> bool {
    let left = powered_again(model::set_value(failing(st, n), key, value).0.m);
    forall|b: int, j: int| #[trigger]
        lookup::hit(st.geo, d, b, j, key) ==> can_bring_back(
            st.geo,
            d,
            left,
            b,
            j,
            defaults,
            fixed,
        )
}

/// The length of the record of a name, if it has one.
pub open spec fn old_len(st: KvState, key: Seq<u8>) -> int {
    match model::lookup(st, key) {
        Some(v) => model::record_len(key, v),
        None => 0,
    }
}

/// The power goes away while a name is set to a value for which there is room without
/// collecting garbage. Once the database was opened again the name reads as before or as
/// the new value, and every other name reads as before. The database is as good as before.
/// Where no sector was being collected it has lost no more of the room for records than the
/// new record and the old one take.
///
/// Where the name had a value before, its record may be left as about to be deleted, and it
/// must be possible to bring it back. It is where there is room for both records.
pub proof fn power_loss_in_set(
    st: KvState,
    d: Map<int, Sect>,
    key: Seq<u8>,
    value: Seq<u8>,
    n: nat,
    defaults: Seq<(Seq<u8>, Seq<u8>)>,
    fixed: bool,
) -> (d1: Map<int, Sect>)
    requires
        laws::fair(st, d),
        key.len() <= KV_NAME_MAX,
        target(st, n, model::record_len(key, value)) is Some,
        recoverable(st, d, key, value, n, defaults, fixed) || (gc::uncollected(st.geo, d)
            && gc::has_space(st.geo, d, model::record_len(key, value) + old_len(st, key))),
    ensures
        ({
            let gone = model::set_value(failing(st, n), key, value).0.m;
            let (st1, r) = model::open_db(powered_again(gone), st.geo, defaults, fixed);
            &&& r is Ok
            &&& st1.geo == st.geo
            &&& laws::fair(st1, d1)
            &&& gc::uncollected(st.geo, d) ==> gc::uncollected(st.geo, d1)
            &&& gc::uncollected(st.geo, d) ==> forall|size: int|
                size >= 0 && #[trigger] gc::has_space(
                    st.geo,
                    d,
                    size + model::record_len(key, value) + old_len(st, key),
                ) ==> gc::has_space(st.geo, d1, size)
            &&& model::lookup(st1, key) == model::lookup(st, key) || model::lookup(st1, key)
                == Some(value)
            &&& forall|k: Seq<u8>|
                k != key
                    ==> #[trigger] model::lookup(st1, k) == model::lookup(st, k)
        }),
{
    reveal(model::new_room);
    let geo = st.geo;
    let size = model::record_len(key, value);
    let st0 = failing(st, n);
    lookup::lemma_find_room(st0, d, size);
    let (sta, slot) = model::find_room(st0, size);
    let s = slot.unwrap();
    let a = choose|x: int| #[trigger] lookup::slot_in(geo, d, x, size, false, s);
    assert(lookup::slot_in(geo, d, a, size, false, s));
    let (dc, q) = lemma_put_lost(sta, d, a, s, key, value);
    let gone = model::set_value(st0, key, value).0.m;
    assert(gone == model::put_in(sta, s, key, value).0.m);
    let m = powered_again(gone);
    assert(image::holds_image(m, geo, dc));
    if recoverable(st, d, key, value, n, defaults, fixed) {
        lemma_returns(st, d, m, dc, q, a, key, value, defaults, fixed);
    } else {
        assert(gc::has_space(geo, d, 0 + size + old_len(st, key)));
        lemma_room_left(st, d, m, dc, q, a, key, value, 0);
        lemma_returns_at_once(m, geo, dc, q, defaults, fixed);
    }
    let d1 = resume::lemma_open_left(m, geo, dc, q, defaults, fixed);
    if q.del is Some {
        lemma_alive_back(geo, dc, q, d1);
    } else {
        let none = Pending { del: None, put: None };
        resume::lemma_alive_same(geo, dc, q, dc, none);
        resume::lemma_alive_trans(geo, dc, none, dc, q, d1, none);
        open::lemma_alive_live(geo, dc, d1);
    }
    let st1 = model::open_db(m, geo, defaults, fixed).0;
    // What is live in the end.
    assert forall|name: Seq<u8>, v: Seq<u8>|
        name != key implies (#[trigger] gc::has_live(geo, d1, name, v) <==> gc::has_live(
        geo,
        d,
        name,
        v,
    )) by {
        assert(gc::has_live(geo, dc, name, v) <==> gc::has_live(geo, d, name, v));
    }
    assert forall|v: Seq<u8>| #[trigger] gc::has_live(geo, d1, key, v) implies v == value
        || gc::has_live(geo, d, key, v) by {
        if !gc::has_live(geo, dc, key, v) {
            let (b, j) = q.del.unwrap();
            assert(gc::live_as(geo, d, b, j, key, dc[b].recs[j].value));
        }
    }
    assert(recover::known(geo, d, key) ==> recover::known(geo, d1, key)) by {
        if recover::known(geo, dc, key) {
            let v = choose|v: Seq<u8>| #[trigger] gc::has_live(geo, dc, key, v);
            assert(gc::has_live(geo, d1, key, v));
        } else if q.del is Some {
            let (b, j) = q.del.unwrap();
            assert(gc::has_live(geo, d1, key, dc[b].recs[j].value));
        }
    }
    laws::lookup_gives_the_live_value(st, d, key);
    laws::lookup_gives_the_live_value(st1, d1, key);
    match model::lookup(st1, key) {
        Some(v) => {
            assert(gc::has_live(geo, d1, key, v));
            assert(v == value || gc::has_live(geo, d, key, v));
        },
        None => {
            assert(!recover::known(geo, d1, key));
            assert(!recover::known(geo, d, key));
            assert forall|v: Seq<u8>| !#[trigger] gc::has_live(geo, d, key, v) by {}
        },
    }
    assert forall|k: Seq<u8>|
        k != key implies #[trigger] model::lookup(
        st1,
        k,
    ) == model::lookup(st, k) by {
        laws::lemma_same_lookup(st, d, st1, d1, k);
    }
    if gc::uncollected(geo, d) {
        assert forall|k: int| k >= 0 && #[trigger] gc::has_space(
            geo,
            d,
            k + size + old_len(st, key),
        ) implies gc::has_space(geo, d1, k) by {
            lemma_room_left(st, d, m, dc, q, a, key, value, k);
            let back = resume::waiting_len(dc, q);
            gc::lemma_within_trans(geo, d, dc, d1, size, back);
            gc::lemma_within_space(
                st.m,
                st1.m,
                geo,
                d,
                d1,
                size + back,
                k + old_len(st, key) - back,
            );
            lemma_less_space(geo, d1, k, k + old_len(st, key) - back);
        }
    }
    d1
}

/// A database that was opened again after the power went away while a name was set can be
/// written to: where there was room for another record besides the new one and the old one,
/// setting a name to it succeeds. That name then reads as its value, the name that was set
/// before the power loss as before it or as its new value, and every other name as before.
pub proof fn set_after_power_loss(
    st: KvState,
    d: Map<int, Sect>,
    key: Seq<u8>,
    value: Seq<u8>,
    n: nat,
    defaults: Seq<(Seq<u8>, Seq<u8>)>,
    fixed: bool,
    next: Seq<u8>,
    other: Seq<u8>,
) -> (d2: Map<int, Sect>)
    requires
        laws::fair(st, d),
        gc::uncollected(st.geo, d),
        key.len() <= KV_NAME_MAX,
        next.len() <= KV_NAME_MAX,
        gc::has_space(
            st.geo,
            d,
            model::record_len(next, other) + model::record_len(key, value) + old_len(st, key),
        ),
    ensures
        ({
            let gone = model::set_value(failing(st, n), key, value).0.m;
            let st1 = model::open_db(powered_again(gone), st.geo, defaults, fixed).0;
            let (st2, r) = model::set_value(st1, next, other);
            &&& r is Ok
            &&& laws::fair(st2, d2)
            &&& model::lookup(st2, next) == Some(other)
            &&& key != next ==> model::lookup(st2, key) == model::lookup(st, key) || model::lookup(
                st2,
                key,
            ) == Some(value)
            &&& forall|k: Seq<u8>|
                k != key && k != next ==> #[trigger] model::lookup(st2, k) == model::lookup(st, k)
        }),
{
    let size = model::record_len(key, value);
    let more = model::record_len(next, other);
    laws::lookup_gives_the_live_value(st, d, key);
    lemma_less_space(st.geo, d, size + old_len(st, key), more + size + old_len(st, key));
    lemma_less_space(st.geo, d, size, size + old_len(st, key));
    laws::lemma_finds_space(failing(st, n), d, size);
    let d1 = power_loss_in_set(st, d, key, value, n, defaults, fixed);
    let gone = model::set_value(failing(st, n), key, value).0.m;
    let st1 = model::open_db(powered_again(gone), st.geo, defaults, fixed).0;
    let d2 = laws::set_then_get(st1, d1, next, other);
    let st2 = model::set_value(st1, next, other).0;
    assert forall|k: Seq<u8>| k != key && k != next implies #[trigger] model::lookup(st2, k)
        == model::lookup(st, k) by {
        assert(model::lookup(st2, k) == model::lookup(st1, k));
    }
    d2
}

/// What is alive is what came back.
proof fn lemma_alive_back(geo: Geo, d: Map<int, Sect>, q: Pending, d1: Map<int, Sect>)
    requires
        resume::same_alive(geo, d, q, d1, (Pending { del: None, put: None })),
        q.del is Some,
    ensures
        recover::came_back(geo, d, q.del.unwrap().0, q.del.unwrap().1, d1),
{
    let (b, j) = q.del.unwrap();
    let none = Pending { del: None, put: None };
    let r = d[b].recs[j];
    assert forall|name: Seq<u8>, v: Seq<u8>| #[trigger]
        gc::has_live(geo, d1, name, v) <==> gc::has_live(geo, d, name, v) || (name == r.name && v
            == r.value && !recover::known(geo, d, r.name)) by {
        assert(resume::alive(geo, d1, none, name, v) <==> resume::alive(geo, d, q, name, v));
    }
}

/// A record that is about to be deleted has its mark.
proof fn lemma_mark_left(geo: Geo, m: Medium, dc: Map<int, Sect>, b: int, j: int)
    requires
        image::holds_image(m, geo, dc),
        db::is_sector(geo, b),
        0 <= j < dc[b].recs.len(),
        dc[b].recs[j].status == KvStatus::PreDelete,
        dc[b].recs[j].sound,
    ensures
        m.bytes[image::place(b, dc[b].recs, j)] == status::status_byte(3),
{
    assert(image::sector_at(m.bytes, geo, b, dc[b]));
    image::lemma_open_sector(m.bytes, geo, b, dc[b]);
    assert(image::rec_at(m.bytes, geo, image::place(b, dc[b].recs, j), dc[b].recs[j]));
}

/// Where there is room for a record there is room for a shorter one.
proof fn lemma_less_space(geo: Geo, d: Map<int, Sect>, size: int, more: int)
    requires
        gc::has_space(geo, d, more),
        size <= more,
    ensures
        gc::has_space(geo, d, size),
{
    if exists|a: int| #[trigger]
        lookup::can_take(geo, d, a, SectorStoreStatus::Using, more, false) {
        let a = choose|a: int| #[trigger]
            lookup::can_take(geo, d, a, SectorStoreStatus::Using, more, false);
        assert(lookup::can_take(geo, d, a, SectorStoreStatus::Using, size, false));
    }
}

/// What a power loss leaves of setting a value leaves room for the record that was there
/// before, if there was room for it besides the new one.
proof fn lemma_room_left(
    st: KvState,
    d: Map<int, Sect>,
    m: Medium,
    dc: Map<int, Sect>,
    q: Pending,
    a: int,
    key: Seq<u8>,
    value: Seq<u8>,
    size: int,
)
    requires
        laws::fair(st, d),
        gc::uncollected(st.geo, d),
        lost(st.geo, d, a, key, value, m, dc, q),
        size >= 0,
        gc::has_space(st.geo, d, size + model::record_len(key, value) + old_len(st, key)),
    ensures
        recover::can_return(st.geo, dc, q),
        q.del matches Some((b, j)) ==> image::body(dc[b].recs[j]) == old_len(st, key),
        old_len(st, key) >= 0,
{
    let geo = st.geo;
    laws::lookup_gives_the_live_value(st, d, key);
    match q.del {
        Some((b, j)) => {
            let v = dc[b].recs[j].value;
            assert(gc::live_as(geo, d, b, j, key, v));
            assert(gc::has_live(geo, d, key, v));
            assert(model::lookup(st, key) == Some(v));
            let len = model::record_len(key, value);
            gc::lemma_within_space(st.m, m, geo, d, dc, len, size + old_len(st, key));
            lemma_less_space(geo, dc, old_len(st, key), size + old_len(st, key));
            let left = KvState { m, ..st };
            laws::lemma_finds_space(left, dc, old_len(st, key));
            lookup::lemma_find_room(left, dc, old_len(st, key));
            let info = model::find_room(left, old_len(st, key)).1.unwrap();
            let t = choose|t: int| #[trigger]
                lookup::slot_in(geo, dc, t, old_len(st, key), false, info);
            assert(lookup::slot_in(geo, dc, t, old_len(st, key), false, info));
        },
        None => {},
    }
}

/// A record that was about to be deleted and that there is room for is brought back.
proof fn lemma_returns_at_once(
    m: Medium,
    geo: Geo,
    d: Map<int, Sect>,
    q: Pending,
    defaults: Seq<(Seq<u8>, Seq<u8>)>,
    fixed: bool,
)
    requires
        image::holds_image(m, geo, d),
        gc::uncollected(geo, d),
        recover::can_return(geo, d, q),
    ensures
        resume::brings_back(resume::opening(m, geo, defaults, fixed), d, q),
{
    let st = resume::opening(m, geo, defaults, fixed);
    ring::lemma_first(geo, 0);
    assert(open::patched(m, geo, d));
    open::lemma_oldest(m, geo, d, 0, SectorStoreStatus::Unused, 0);
    ring::lemma_first(geo, st.oldest);
    open::lemma_nothing_to_resume(st, d, st.oldest, 0);
    lookup::lemma_find_room(st, d, resume::waiting_len(d, q));
}

/// A record that was about to be deleted can be brought back.
proof fn lemma_returns(
    st: KvState,
    d: Map<int, Sect>,
    m: Medium,
    dc: Map<int, Sect>,
    q: Pending,
    a: int,
    key: Seq<u8>,
    value: Seq<u8>,
    defaults: Seq<(Seq<u8>, Seq<u8>)>,
    fixed: bool,
)
    requires
        laws::fair(st, d),
        lost(st.geo, d, a, key, value, m, dc, q),
        forall|b: int, j: int| #[trigger]
            lookup::hit(st.geo, d, b, j, key) ==> can_bring_back(
                st.geo,
                d,
                m,
                b,
                j,
                defaults,
                fixed,
            ),
    ensures
        resume::brings_back(resume::opening(m, st.geo, defaults, fixed), dc, q),
{
    let geo = st.geo;
    if q.del is Some {
        let (b, j) = q.del.unwrap();
        assert(gc::live_as(geo, d, b, j, key, dc[b].recs[j].value));
        assert(lookup::hit(geo, d, b, j, key));
        assert(dc[b].recs[j].status == KvStatus::PreDelete);
        lemma_mark_left(geo, m, dc, b, j);
        image::lemma_head(m, geo, dc, b);
        assert(image::sector_at(m.bytes, geo, b, dc[b]));
        image::lemma_open_sector(m.bytes, geo, b, dc[b]);
    }
}

} // verus!
