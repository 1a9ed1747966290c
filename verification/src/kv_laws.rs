//! What the key-value database promises: a name reads as what it was last set to, a
//! deleted name is gone, and no other name changes with them.
use vstd::prelude::*;

use crate::db;
use crate::db::Geo;
use crate::def::{KvStatus, SectorDirtyStatus, SectorStoreStatus, KV_NAME_MAX};
use crate::error::FdbError;
use crate::flushing;
use crate::kv_change as change;
use crate::kv_gc as gc;
use crate::kv_image as image;
use crate::kv_image::Sect;
use crate::kv_iter as iter;
use crate::kv_lookup as lookup;
use crate::kv_model as model;
use crate::kv_model::{KvState, Node, SecInfo};
use crate::storage::Medium;

verus! {

/// What holds of a database between two operations, whose medium holds the image `d`:
/// programming only ever cleared bits, the power is there, no two live records have the
/// same name, no record waits to be deleted or was being written, and some sector is empty.
pub open spec fn fair(st: KvState, d: Map<int, Sect>) -> bool {
    &&& image::holds_image(st.m, st.geo, d)
    &&& st.m.budget is None
    &&& db::is_sector(st.geo, st.oldest)
    &&& !st.gc_request
    &&& gc::unique(st.geo, d)
    &&& gc::at_rest(st.geo, d)
    &&& lookup::has_empty(st.geo, d)
}

pub proof fn lemma_hit_live(geo: Geo, d: Map<int, Sect>, a: int, j: int, key: Seq<u8>)
    requires
        lookup::hit(geo, d, a, j, key),
    ensures
        gc::live(geo, d, a, j),
        gc::has_live(geo, d, d[a].recs[j].name, d[a].recs[j].value),
        d[a].recs[j].name == key,
{
    assert(gc::live_as(geo, d, a, j, d[a].recs[j].name, d[a].recs[j].value));
}

pub proof fn lemma_live_hit(geo: Geo, d: Map<int, Sect>, key: Seq<u8>, value: Seq<u8>) -> (r: (int, int))
    requires
        gc::has_live(geo, d, key, value),
    ensures
        lookup::hit(geo, d, r.0, r.1, key),
        gc::live_as(geo, d, r.0, r.1, key, value),
{
    let (a, j) = choose|a: int, j: int| gc::live_as(geo, d, a, j, key, value);
    assert(lookup::hit(geo, d, a, j, key));
    (a, j)
}

/// Looking up a name gives the value of the live record with that name, if there is one.
pub proof fn lookup_gives_the_live_value(st: KvState, d: Map<int, Sect>, key: Seq<u8>)
    requires
        image::holds_image(st.m, st.geo, d),
        db::is_sector(st.geo, st.oldest),
        gc::unique(st.geo, d),
    ensures
        forall|v: Seq<u8>|
            model::lookup(st, key) == Some(v) <==> #[trigger] gc::has_live(st.geo, d, key, v),
        model::lookup(st, key) is None <==> forall|v: Seq<u8>|
            !#[trigger] gc::has_live(st.geo, d, key, v),
        image::read_only(st.m, model::find(st, key).0, st.geo, d),
{
    let geo = st.geo;
    lookup::lemma_find(st, d, key);
    let (m1, n, found) = model::find(st, key);
    if found {
        let (a, j) = choose|a: int, j: int| #[trigger]
            lookup::hit(geo, d, a, j, key) && lookup::shown(d, a, j, n);
        let r = d[a].recs[j];
        lemma_hit_live(geo, d, a, j, key);
        assert(r.name == key);
        lookup::lemma_shown_value(m1, geo, d, a, j, n);
        assert(model::lookup(st, key) == Some(r.value));
        assert forall|v: Seq<u8>|
            model::lookup(st, key) == Some(v) <==> #[trigger] gc::has_live(geo, d, key, v) by {
            if gc::has_live(geo, d, key, v) {
                let (b, k) = lemma_live_hit(geo, d, key, v);
                assert(gc::live(geo, d, b, k));
                assert(a == b && j == k);
            }
        }
        assert(gc::has_live(geo, d, key, r.value));
    } else {
        assert forall|v: Seq<u8>| !#[trigger] gc::has_live(geo, d, key, v) by {
            if gc::has_live(geo, d, key, v) {
                let (b, k) = lemma_live_hit(geo, d, key, v);
            }
        }
    }
}

/// Two images with the same live names and values look the same.
pub proof fn lemma_same_lookup(
    st: KvState,
    d: Map<int, Sect>,
    st1: KvState,
    d1: Map<int, Sect>,
    key: Seq<u8>,
)
    requires
        image::holds_image(st.m, st.geo, d),
        db::is_sector(st.geo, st.oldest),
        gc::unique(st.geo, d),
        image::holds_image(st1.m, st1.geo, d1),
        db::is_sector(st1.geo, st1.oldest),
        gc::unique(st1.geo, d1),
        forall|v: Seq<u8>| #[trigger]
            gc::has_live(st1.geo, d1, key, v) <==> gc::has_live(st.geo, d, key, v),
    ensures
        model::lookup(st1, key) == model::lookup(st, key),
{
    lookup_gives_the_live_value(st, d, key);
    lookup_gives_the_live_value(st1, d1, key);
    match model::lookup(st, key) {
        Some(v) => {
            assert(gc::has_live(st.geo, d, key, v));
            assert(gc::has_live(st1.geo, d1, key, v));
        },
        None => {
            assert forall|v: Seq<u8>| !#[trigger] gc::has_live(st1.geo, d1, key, v) by {
                assert(!gc::has_live(st.geo, d, key, v));
            }
        },
    }
}

// -------------------------------------------------------------------------- deleting

/// Striking a live record out takes it from what is live, and nothing else.
pub proof fn lemma_struck_out(geo: Geo, d: Map<int, Sect>, a: int, j: int, complete: bool)
    requires
        gc::live(geo, d, a, j),
        gc::unique(geo, d),
    ensures
        ({
            let d1 = d.insert(a, change::struck(d[a], j, change::gone(complete)));
            &&& gc::unique(geo, d1)
            &&& forall|name: Seq<u8>, v: Seq<u8>| #[trigger]
                gc::has_live(geo, d1, name, v) <==> name != d[a].recs[j].name && gc::has_live(
                    geo,
                    d,
                    name,
                    v,
                )
            &&& gc::at_rest(geo, d) && complete ==> gc::at_rest(geo, d1)
            &&& gc::uncollected(geo, d) ==> gc::uncollected(geo, d1)
            &&& iter::all_sound(geo, d) ==> iter::all_sound(geo, d1)
            &&& d[a].dirty != SectorDirtyStatus::Unused ==> gc::dirty(d1[a])
            &&& gc::accounted(geo, d) && d[a].dirty != SectorDirtyStatus::Unused ==> gc::accounted(
                geo,
                d1,
            )
            &&& forall|x: int| (#[trigger] d1[x]).store == d[x].store
            &&& forall|x: int| image::span((#[trigger] d1[x]).recs) == image::span(d[x].recs)
            &&& forall|x: int| (#[trigger] d1[x]).recs.len() == d[x].recs.len()
        }),
{
    let d1 = d.insert(a, change::struck(d[a], j, change::gone(complete)));
    let key = d[a].recs[j].name;
    assert forall|b: int, k: int| #[trigger]
        gc::live(geo, d1, b, k) <==> gc::live(geo, d, b, k) && !(b == a && k == j) by {
        if b == a && 0 <= k < d[a].recs.len() && k != j {
            assert(d1[a].recs[k] == d[a].recs[k]);
        }
    }
    assert forall|b: int, k: int| #[trigger] gc::live(geo, d1, b, k) implies d1[b].recs[k]
        == d[b].recs[k] by {
        assert(gc::live(geo, d, b, k) && !(b == a && k == j));
    }
    assert forall|name: Seq<u8>, v: Seq<u8>| #[trigger]
        gc::has_live(geo, d1, name, v) <==> name != key && gc::has_live(geo, d, name, v) by {
        if gc::has_live(geo, d1, name, v) {
            let (b, k) = choose|b: int, k: int| gc::live_as(geo, d1, b, k, name, v);
            assert(gc::live(geo, d1, b, k));
            assert(gc::live(geo, d, b, k));
            assert(gc::live_as(geo, d, b, k, name, v));
            if name == key {
                assert(gc::live(geo, d, a, j));
                assert(b == a && k == j);
            }
        }
        if name != key && gc::has_live(geo, d, name, v) {
            let (b, k) = choose|b: int, k: int| gc::live_as(geo, d, b, k, name, v);
            assert(gc::live(geo, d, b, k));
            assert(gc::live(geo, d1, b, k));
            assert(gc::live_as(geo, d1, b, k, name, v));
        }
    }
    assert forall|b: int, k: int, e: int, l: int|
        #![trigger gc::live(geo, d1, b, k), gc::live(geo, d1, e, l)]
        gc::live(geo, d1, b, k) && gc::live(geo, d1, e, l) && d1[b].recs[k].name
            == d1[e].recs[l].name implies b == e && k
        == l by {
        assert(gc::live(geo, d, b, k) && gc::live(geo, d, e, l));
    }
    if gc::at_rest(geo, d) && complete {
        assert forall|b: int, k: int|
            db::is_sector(geo, b) && 0 <= k < d1[b].recs.len() implies (
        #[trigger] d1[b].recs[k]).status != KvStatus::PreDelete && d1[b].recs[k].status
            != KvStatus::PreWrite by {
            assert(d[b].recs[k].status != KvStatus::PreDelete);
        }
    }
    if iter::all_sound(geo, d) {
        assert forall|b: int, k: int|
            db::is_sector(geo, b) && 0 <= k < d1[b].recs.len() implies (
        #[trigger] d1[b].recs[k]).sound by {
            assert(d[b].recs[k].sound);
        }
    }
    if gc::accounted(geo, d) && d[a].dirty != SectorDirtyStatus::Unused {
        assert forall|b: int, k: int|
            db::is_sector(geo, b) && 0 <= k < d1[b].recs.len() && (#[trigger] d1[b].recs[k]).status
                == KvStatus::Deleted implies gc::dirty(d1[b]) by {
            if b != a {
                assert(d[b].recs[k].status == KvStatus::Deleted);
            }
        }
    }
    assert forall|x: int| image::span((#[trigger] d1[x]).recs) == image::span(d[x].recs) by {
        if x == a {
            image::lemma_reach_same(d1[a].recs, d[a].recs, d[a].recs.len() as int);
        }
    }
    if gc::uncollected(geo, d) {
        assert forall|x: int| db::is_sector(geo, x) implies (#[trigger] d1[x]).dirty
            != SectorDirtyStatus::Gc by {
            assert(d[x].dirty != SectorDirtyStatus::Gc);
        }
    }
}

/// Deleting a name: it is then gone, and every other name reads as before. A name that
/// is not there is reported, and nothing changes. A record that is deleted is gone for good,
/// and its sector then waits to be collected: where no garbage was lost none is.
/// Where all records are sound they stay so, and where no sector is being collected none is
/// afterwards.
pub proof fn delete_removes_the_name(st: KvState, d: Map<int, Sect>, key: Seq<u8>) -> (d1: Map<
    int,
    Sect,
>)
    requires
        fair(st, d),
    ensures
        ({
            let (st1, r) = model::delete(st, key);
            &&& fair(st1, d1)
            &&& st1 == (KvState { m: st1.m, ..st })
            &&& r == (if model::lookup(st, key) is Some {
                Ok(())
            } else {
                Err(FdbError::KvNameErr)
            })
            &&& model::lookup(st1, key) is None
            &&& forall|k: Seq<u8>|
                k != key ==> #[trigger] model::lookup(
                    st1,
                    k,
                ) == model::lookup(st, k)
            &&& iter::all_sound(st.geo, d) ==> iter::all_sound(st.geo, d1)
            &&& gc::accounted(st.geo, d) ==> gc::accounted(st.geo, d1)
            &&& gc::uncollected(st.geo, d) ==> gc::uncollected(st.geo, d1)
            &&& r is Ok ==> gone_for_good(st1.m, st.geo, d, d1, key)
        }),
{
    let geo = st.geo;
    lookup::lemma_find(st, d, key);
    let (m1, n, found) = model::find(st, key);
    let (st1, r) = model::delete(st, key);
    let d1 = if found {
        let (a, j) = choose|a: int, j: int| #[trigger]
            lookup::hit(geo, d, a, j, key) && lookup::shown(d, a, j, n);
        lemma_hit_live(geo, d, a, j, key);
        change::lemma_delete_at(m1, geo, d, a, j, true);
        lemma_struck_out(geo, d, a, j, true);
        assert(d[a].dirty != SectorDirtyStatus::Unused) by {
            assert(image::sector_at(st.m.bytes, geo, a, d[a]));
            image::lemma_open_sector(st.m.bytes, geo, a, d[a]);
        }
        let d1 = d.insert(a, change::struck(d[a], j, KvStatus::Deleted));
        assert(gone_for_good(st1.m, geo, d, d1, key)) by {
            assert(gc::live(geo, d, a, j));
            assert(d1[a].recs[j].status == KvStatus::Deleted);
        }
        assert(lookup::has_empty(geo, d1)) by {
            let e = choose|x: int|
                db::is_sector(geo, x) && (#[trigger] d[x]).store == SectorStoreStatus::Empty;
            assert(d1[e].store == SectorStoreStatus::Empty);
        }
        d1
    } else {
        d
    };
    assert forall|name: Seq<u8>, v: Seq<u8>| #[trigger]
        gc::has_live(geo, d1, name, v) <==> name != key && gc::has_live(geo, d, name, v) by {
        if !found && name == key && gc::has_live(geo, d, name, v) {
            let (b, k) = lemma_live_hit(geo, d, key, v);
        }
    }
    lookup_gives_the_live_value(st, d, key);
    lookup_gives_the_live_value(st1, d1, key);
    assert(model::lookup(st1, key) is None);
    assert forall|k: Seq<u8>|
        k != key implies #[trigger] model::lookup(
        st1,
        k,
    ) == model::lookup(st, k) by {
        lemma_same_lookup(st, d, st1, d1, k);
    }
    d1
}

// --------------------------------------------------------------------------- setting

/// Where there is space room is found.
pub proof fn lemma_finds_space(st: KvState, d: Map<int, Sect>, size: int)
    requires
        image::holds_image(st.m, st.geo, d),
        db::is_sector(st.geo, st.oldest),
        !st.gc_request,
    ensures
        gc::has_space(st.geo, d, size) ==> model::find_room(st, size).1 is Some,
{
    let geo = st.geo;
    lookup::lemma_find_room(st, d, size);
    if lookup::has_two_empty(geo, d) && 16 + size + 88 < geo.sec {
        let (a, b) = choose|a: int, b: int|
            #![trigger d[a], d[b]]
            a != b && db::is_sector(geo, a) && db::is_sector(geo, b) && d[a].store
                == SectorStoreStatus::Empty && d[b].store == SectorStoreStatus::Empty;
        assert(image::sector_at(st.m.bytes, geo, a, d[a]));
        image::lemma_open_sector(st.m.bytes, geo, a, d[a]);
        assert(image::span(d[a].recs) == 0);
        assert(lookup::can_take(geo, d, a, SectorStoreStatus::Empty, size, false));
    }
}

/// Room for a record is taken from the first sector in use that has it, on the walk from the
/// oldest sector on, and from the first empty sector only where no sector in use has it and
/// another sector stays empty.
pub proof fn room_is_in_the_first_sector_that_has_it(st: KvState, d: Map<int, Sect>, size: int)
    requires
        fair(st, d),
    ensures
        ({
            let slot = model::find_room(st, size).1;
            let geo = st.geo;
            &&& slot is Some <==> gc::has_space(geo, d, size)
            &&& slot matches Some(s) ==> {
                ||| lookup::takes_first(
                    geo,
                    d,
                    st.oldest,
                    0,
                    s.at,
                    SectorStoreStatus::Using,
                    size,
                    false,
                )
                ||| lookup::takes_first(
                    geo,
                    d,
                    st.oldest,
                    0,
                    s.at,
                    SectorStoreStatus::Empty,
                    size,
                    false,
                ) && lookup::has_two_empty(geo, d) && forall|a: int|
                    !#[trigger] lookup::can_take(geo, d, a, SectorStoreStatus::Using, size, false)
            }
            &&& slot matches Some(s) ==> s.empty == s.at + 16 + image::span(d[s.at].recs)
        }),
{
    lookup::lemma_find_room(st, d, size);
    lemma_finds_space(st, d, size);
    if let Some(s) = model::find_room(st, size).1 {
        let a = choose|a: int| #[trigger] lookup::slot_in(st.geo, d, a, size, false, s);
        lookup::lemma_span(st.m, st.geo, d, a);
    }
}

/// Finding room for a record, collecting garbage if need be, keeps what is live. It is
/// found where there is space, or where collecting the first dirty sector makes it. Where it
/// is not found, no dirty sector is left, or a sector has almost as much as is asked for.
proof fn lemma_new_room(st: KvState, d: Map<int, Sect>, size: int) -> (d1: Map<int, Sect>)
    requires
        fair(st, d),
    ensures
        ({
            let (st1, slot) = model::new_room(st, size);
            &&& fair(st1, d1)
            &&& st1 == (KvState { m: st1.m, oldest: st1.oldest, ..st })
            &&& gc::same_live(st.geo, d, d1)
            &&& slot matches Some(s) ==> exists|a: int| #[trigger]
                lookup::slot_in(st.geo, d1, a, size, false, s)
            &&& gc::has_space(st.geo, d, size) ==> slot is Some
            &&& size >= 0 && gc::can_free(st.geo, d, st.oldest, size) ==> slot is Some
            &&& slot is Some ==> 16 + size + 88 < st.geo.sec
            &&& slot is None ==> !gc::has_space(st.geo, d1, size)
            &&& slot is None && size >= 0 && 16 + size + 88 < st.geo.sec ==> gc::has_space(
                st.geo,
                d1,
                size - 88,
            ) || gc::clean(st.geo, d1)
            &&& iter::all_sound(st.geo, d) ==> iter::all_sound(st.geo, d1)
            &&& gc::accounted(st.geo, d) ==> gc::accounted(st.geo, d1)
            &&& gc::uncollected(st.geo, d) ==> gc::uncollected(st.geo, d1)
        }),
{
    reveal(model::new_room);
    let geo = st.geo;
    lemma_finds_space(st, d, size);
    lookup::lemma_find_room(st, d, size);
    let (st1, s1) = model::find_room(st, size);
    if size >= 0 && gc::can_free(geo, d, st.oldest, size) && lookup::has_two_empty(geo, d) {
        gc::lemma_can_free(st, d, size);
        assert(gc::has_space(geo, d, size));
    }
    if s1 is Some || !st1.gc_request {
        if let Some(s) = s1 {
            let a = choose|a: int| #[trigger] lookup::slot_in(geo, d, a, size, false, s);
            lookup::lemma_span(st.m, geo, d, a);
        }
        d
    } else {
        let d1 = gc::gc_keeps_live(st1, d, size);
        let st2 = model::gc(st1, size);
        lemma_finds_space(st2, d1, size);
        lookup::lemma_find_room(st2, d1, size);
        let (st3, s3) = model::find_room(st2, size);
        if let Some(s) = s3 {
            let a = choose|a: int| #[trigger] lookup::slot_in(geo, d1, a, size, false, s);
            lookup::lemma_span(st2.m, geo, d1, a);
        }
        d1
    }
}

/// The sectors of an image once a live record was added to the sector at `a`.
pub open spec fn added(d: Map<int, Sect>, a: int, key: Seq<u8>, value: Seq<u8>) -> Map<int, Sect> {
    d.insert(a, change::appended(d[a], change::live_rec(key, value)))
}

/// Adding a record with a new name adds it to what is live.
pub proof fn lemma_added(geo: Geo, d: Map<int, Sect>, a: int, key: Seq<u8>, value: Seq<u8>)
    requires
        db::is_sector(geo, a),
        gc::unique(geo, d),
        forall|v: Seq<u8>| !#[trigger] gc::has_live(geo, d, key, v),
    ensures
        ({
            let d1 = added(d, a, key, value);
            &&& gc::unique(geo, d1)
            &&& forall|name: Seq<u8>, v: Seq<u8>| #[trigger]
                gc::has_live(geo, d1, name, v) <==> (name == key && v == value) || gc::has_live(
                    geo,
                    d,
                    name,
                    v,
                )
            &&& gc::live(geo, d1, a, d[a].recs.len() as int)
            &&& iter::all_sound(geo, d) ==> iter::all_sound(geo, d1)
            &&& gc::accounted(geo, d) ==> gc::accounted(geo, d1)
        }),
{
    let d1 = added(d, a, key, value);
    let n = d[a].recs.len() as int;
    if iter::all_sound(geo, d) {
        assert forall|b: int, k: int|
            db::is_sector(geo, b) && 0 <= k < d1[b].recs.len() implies (
        #[trigger] d1[b].recs[k]).sound by {
            if b == a && k == n {
            } else {
                assert(d[b].recs[k].sound);
            }
        }
    }
    if gc::accounted(geo, d) {
        assert forall|b: int, k: int|
            db::is_sector(geo, b) && 0 <= k < d1[b].recs.len() && (#[trigger] d1[b].recs[k]).status
                == KvStatus::Deleted implies gc::dirty(d1[b]) by {
            if b == a && k == n {
            } else {
                assert(d[b].recs[k].status == KvStatus::Deleted);
            }
        }
    }
    assert(d1[a].recs[n] == change::live_rec(key, value));
    assert(gc::live(geo, d1, a, n));
    assert forall|b: int, k: int| #[trigger]
        gc::live(geo, d1, b, k) <==> gc::live(geo, d, b, k) || (b == a && k == n) by {
        if b == a && 0 <= k < n {
            assert(d1[a].recs[k] == d[a].recs[k]);
        }
    }
    assert forall|b: int, k: int| #[trigger] gc::live(geo, d, b, k) implies d1[b].recs[k]
        == d[b].recs[k] && !(b == a && k == n) by {}
    assert forall|name: Seq<u8>, v: Seq<u8>| #[trigger]
        gc::has_live(geo, d1, name, v) <==> (name == key && v == value) || gc::has_live(
            geo,
            d,
            name,
            v,
        ) by {
        if gc::has_live(geo, d1, name, v) {
            let (b, k) = choose|b: int, k: int| gc::live_as(geo, d1, b, k, name, v);
            assert(gc::live(geo, d1, b, k));
            if !(b == a && k == n) {
                assert(gc::live(geo, d, b, k));
                assert(gc::live_as(geo, d, b, k, name, v));
            }
        }
        if name == key && v == value {
            assert(gc::live_as(geo, d1, a, n, name, v));
        }
        if gc::has_live(geo, d, name, v) {
            let (b, k) = choose|b: int, k: int| gc::live_as(geo, d, b, k, name, v);
            assert(gc::live(geo, d, b, k));
            assert(gc::live(geo, d1, b, k));
            assert(gc::live_as(geo, d1, b, k, name, v));
        }
    }
    assert forall|b: int, k: int, e: int, l: int|
        #![trigger gc::live(geo, d1, b, k), gc::live(geo, d1, e, l)]
        gc::live(geo, d1, b, k) && gc::live(geo, d1, e, l) && d1[b].recs[k].name
            == d1[e].recs[l].name implies b == e && k
        == l by {
        let first = b == a && k == n;
        let second = e == a && l == n;
        if !first && !second {
            assert(gc::live(geo, d, b, k) && gc::live(geo, d, e, l));
        } else if first && !second {
            assert(gc::live(geo, d, e, l));
            assert(gc::live_as(geo, d, e, l, key, d[e].recs[l].value));
            assert(gc::has_live(geo, d, key, d[e].recs[l].value));
        } else if !first && second {
            assert(gc::live(geo, d, b, k));
            assert(gc::live_as(geo, d, b, k, key, d[b].recs[k].value));
            assert(gc::has_live(geo, d, key, d[b].recs[k].value));
        }
    }
}

/// Adding a record where room was found keeps what holds between operations.
pub proof fn lemma_added_good(geo: Geo, d: Map<int, Sect>, a: int, key: Seq<u8>, value: Seq<u8>)
    requires
        db::is_sector(geo, a),
        d[a].store == SectorStoreStatus::Using || (d[a].store == SectorStoreStatus::Empty
            && lookup::has_two_empty(geo, d)),
        lookup::has_empty(geo, d),
    ensures
        ({
            let d1 = added(d, a, key, value);
            &&& gc::at_rest(geo, d) ==> gc::at_rest(geo, d1)
            &&& gc::uncollected(geo, d) ==> gc::uncollected(geo, d1)
            &&& lookup::has_empty(geo, d1)
        }),
{
    let d1 = added(d, a, key, value);
    if gc::at_rest(geo, d) {
        assert forall|b: int, k: int|
            db::is_sector(geo, b) && 0 <= k < d1[b].recs.len() implies (
        #[trigger] d1[b].recs[k]).status != KvStatus::PreDelete && d1[b].recs[k].status
            != KvStatus::PreWrite by {
            if b == a && k == d[a].recs.len() {
            } else {
                assert(d1[b].recs[k] == d[b].recs[k]);
            }
        }
    }
    if gc::uncollected(geo, d) {
        assert forall|x: int| db::is_sector(geo, x) implies (#[trigger] d1[x]).dirty
            != SectorDirtyStatus::Gc by {
            assert(d[x].dirty != SectorDirtyStatus::Gc);
        }
    }
    if d[a].store == SectorStoreStatus::Using {
        let e = choose|x: int|
            db::is_sector(geo, x) && (#[trigger] d[x]).store == SectorStoreStatus::Empty;
        assert(d1[e].store == SectorStoreStatus::Empty);
    } else {
        let (x, y) = choose|x: int, y: int|
            #![trigger d[x], d[y]]
            x != y && db::is_sector(geo, x) && db::is_sector(geo, y) && d[x].store
                == SectorStoreStatus::Empty && d[y].store == SectorStoreStatus::Empty;
        if x != a {
            assert(d1[x].store == SectorStoreStatus::Empty);
        } else {
            assert(d1[y].store == SectorStoreStatus::Empty);
        }
    }
}

/// Adding a record to a sector and striking another one out can be done either way
/// round.
proof fn lemma_strike_add(d: Map<int, Sect>, b: int, j: int, a: int, key: Seq<u8>, value: Seq<u8>)
    requires
        0 <= j < d[b].recs.len(),
    ensures
        ({
            let da = d.insert(b, change::struck(d[b], j, KvStatus::PreDelete));
            let dc = added(da, a, key, value);
            let ds = d.insert(b, change::struck(d[b], j, KvStatus::Deleted));
            dc.insert(b, change::struck(dc[b], j, KvStatus::Deleted)) == added(ds, a, key, value)
        }),
{
    let da = d.insert(b, change::struck(d[b], j, KvStatus::PreDelete));
    let dc = added(da, a, key, value);
    let ds = d.insert(b, change::struck(d[b], j, KvStatus::Deleted));
    let x = dc.insert(b, change::struck(dc[b], j, KvStatus::Deleted));
    let y = added(ds, a, key, value);
    assert(x[b].recs =~= y[b].recs);
    assert(x[a].recs =~= y[a].recs);
    assert(x =~= y);
}

/// The image once the `j`th record of the sector at `b` is replaced by a new one in the
/// sector at `a`.
pub open spec fn replaced(
    d: Map<int, Sect>,
    b: int,
    j: int,
    a: int,
    key: Seq<u8>,
    value: Seq<u8>,
) -> Map<int, Sect> {
    added(d.insert(b, change::struck(d[b], j, KvStatus::Deleted)), a, key, value)
}

/// Replacing a live record: its name then has the new value.
proof fn lemma_replaced(
    geo: Geo,
    d: Map<int, Sect>,
    b: int,
    j: int,
    a: int,
    key: Seq<u8>,
    value: Seq<u8>,
)
    requires
        db::is_sector(geo, a),
        gc::live(geo, d, b, j),
        d[b].dirty != SectorDirtyStatus::Unused,
        d[b].recs[j].name == key,
        gc::unique(geo, d),
        gc::at_rest(geo, d),
        lookup::has_empty(geo, d),
        d[a].store == SectorStoreStatus::Using || (d[a].store == SectorStoreStatus::Empty
            && lookup::has_two_empty(geo, d)),
    ensures
        ({
            let d1 = replaced(d, b, j, a, key, value);
            &&& gc::unique(geo, d1)
            &&& gc::at_rest(geo, d1)
            &&& gc::uncollected(geo, d) ==> gc::uncollected(geo, d1)
            &&& lookup::has_empty(geo, d1)
            &&& forall|name: Seq<u8>, v: Seq<u8>| #[trigger]
                gc::has_live(geo, d1, name, v) <==> (name == key && v == value) || (name != key
                    && gc::has_live(geo, d, name, v))
            &&& iter::all_sound(geo, d) ==> iter::all_sound(geo, d1)
            &&& gc::accounted(geo, d) ==> gc::accounted(geo, d1)
        }),
{
    lemma_struck_out(geo, d, b, j, true);
    let ds = d.insert(b, change::struck(d[b], j, KvStatus::Deleted));
    assert forall|v: Seq<u8>| !#[trigger] gc::has_live(geo, ds, key, v) by {}
    lemma_added(geo, ds, a, key, value);
    lemma_still_empty(geo, d, ds);
    assert(ds[a].store == d[a].store);
    lemma_added_good(geo, ds, a, key, value);
}

/// Two records, and the header of a sector and a record, do not overlap.
proof fn lemma_apart_from(m: Medium, geo: Geo, d: Map<int, Sect>, b: int, j: int, a: int, k: int)
    requires
        image::holds_image(m, geo, d),
        db::is_sector(geo, a),
        db::is_sector(geo, b),
        0 <= j < d[b].recs.len(),
        0 <= k < d[a].recs.len(),
        a != b || j != k,
    ensures
        ({
            let p = image::place(b, d[b].recs, j);
            let q = image::place(a, d[a].recs, k);
            let end = q + image::size(d[a].recs[k]);
            &&& p < q || end <= p
            &&& b + 1 < q || end <= b + 1
            &&& 0 <= q <= end <= m.bytes.len()
        }),
{
    assert(image::sector_at(m.bytes, geo, a, d[a]));
    assert(image::sector_at(m.bytes, geo, b, d[b]));
    image::lemma_open_sector(m.bytes, geo, a, d[a]);
    image::lemma_open_sector(m.bytes, geo, b, d[b]);
    image::lemma_place(m.bytes, geo, a, d[a], k);
    image::lemma_place(m.bytes, geo, b, d[b], j);
    if a != b {
        db::lemma_apart(geo, a, b);
    } else if j < k {
        image::lemma_reach(d[a].recs, j, k);
    } else {
        image::lemma_reach(d[a].recs, k, j);
    }
}

/// Putting a value over the live record that `n` shows.
proof fn lemma_put_over(
    st: KvState,
    d: Map<int, Sect>,
    a: int,
    s: SecInfo,
    b: int,
    j: int,
    n: Node,
    key: Seq<u8>,
    value: Seq<u8>,
)
    requires
        image::holds_image(st.m, st.geo, d),
        st.m.budget is None,
        !st.gc_request,
        key.len() <= KV_NAME_MAX,
        lookup::slot_in(st.geo, d, a, model::record_len(key, value), false, s),
        gc::live(st.geo, d, b, j),
        lookup::shown(d, b, j, n),
    ensures
        ({
            let m1 = model::delete_at(st.m, st.geo, n.at, false).0;
            let (st2, r2) = model::create(KvState { m: m1, ..st }, Some(s), key, value);
            let (m3, r3) = model::delete_at(st2.m, st.geo, n.at, true);
            &&& model::delete_at(st.m, st.geo, n.at, false).1 == Ok::<(), FdbError>(())
            &&& r2 == Ok::<(), FdbError>(())
            &&& r3 == Ok::<(), FdbError>(())
            &&& st2 == (KvState { m: st2.m, ..st })
            &&& m3.budget is None
            &&& m3.bytes.len() == st.m.bytes.len()
            &&& image::holds_image(m3, st.geo, replaced(d, b, j, a, key, value))
            &&& flushing::flushed_at(m3, s.empty)
        }),
{
    let geo = st.geo;
    lookup::lemma_span(st.m, geo, d, a);
    // The old record is marked.
    change::lemma_delete_at(st.m, geo, d, b, j, false);
    let da = d.insert(b, change::struck(d[b], j, KvStatus::PreDelete));
    let m1 = model::delete_at(st.m, geo, n.at, false).0;
    // The new one is written.
    let st1 = KvState { m: m1, ..st };
    assert(da[a].store == d[a].store && image::span(da[a].recs) == image::span(d[a].recs)) by {
        if a == b {
            image::lemma_reach_same(da[a].recs, d[a].recs, d[a].recs.len() as int);
        }
    }
    change::lemma_create_in(st1, da, a, s, key, value);
    let st2 = model::create_in(st1, s, key, value).0;
    let dc = added(da, a, key, value);
    // The old one is deleted.
    assert(dc[b].recs.len() > j && dc[b].recs[j] == da[b].recs[j]);
    gc::lemma_struck_place(b, d[b], j, KvStatus::PreDelete, j);
    assert(image::place(b, dc[b].recs, j) == n.at) by {
        image::lemma_reach_same(dc[b].recs, da[b].recs, j);
    }
    change::lemma_delete_at(st2.m, geo, dc, b, j, true);
    let k = d[a].recs.len() as int;
    lemma_apart_from(st2.m, geo, dc, b, j, a, k);
    assert(image::place(a, dc[a].recs, k) == s.empty) by {
        image::lemma_reach_same(dc[a].recs, d[a].recs, k);
    }
    assert(dc[a].recs[k] == change::live_rec(key, value));
    assert(s.empty != n.at && s.empty != b + 1);
    lemma_strike_add(d, b, j, a, key, value);
}

/// Whether a live record with this name and value is there for good: the status that says
/// that it is live is flushed.
pub open spec fn kept(
    m: Medium,
    geo: Geo,
    d: Map<int, Sect>,
    name: Seq<u8>,
    value: Seq<u8>,
) -> bool {
    exists|a: int, j: int| #[trigger]
        gc::live_as(geo, d, a, j, name, value) && flushing::flushed_at(
            m,
            image::place(a, d[a].recs, j),
        )
}

/// Whether a record that was live in `d` with this name is gone from `d1` for good: the status
/// that says that it is deleted is flushed.
pub open spec fn gone_for_good(
    m: Medium,
    geo: Geo,
    d: Map<int, Sect>,
    d1: Map<int, Sect>,
    name: Seq<u8>,
) -> bool {
    exists|a: int, j: int| #[trigger]
        gc::live(geo, d, a, j) && d[a].recs[j].name == name && d1[a].recs[j].status
            == KvStatus::Deleted && flushing::flushed_at(m, image::place(a, d[a].recs, j))
}

/// Where a new record ends up at the place that room was found for.
proof fn lemma_put_in(
    st: KvState,
    d: Map<int, Sect>,
    a: int,
    s: SecInfo,
    key: Seq<u8>,
    value: Seq<u8>,
) -> (d1: Map<int, Sect>)
    requires
        fair(st, d),
        key.len() <= KV_NAME_MAX,
        lookup::slot_in(st.geo, d, a, model::record_len(key, value), false, s),
    ensures
        ({
            let (st1, r) = model::put_in(st, s, key, value);
            &&& r == Ok::<(), FdbError>(())
            &&& fair(st1, d1)
            &&& st1 == (KvState { m: st1.m, ..st })
            &&& forall|name: Seq<u8>, v: Seq<u8>| #[trigger]
                gc::has_live(st.geo, d1, name, v) <==> (name == key && v == value) || (name != key
                    && gc::has_live(st.geo, d, name, v))
            &&& iter::all_sound(st.geo, d) ==> iter::all_sound(st.geo, d1)
            &&& gc::accounted(st.geo, d) ==> gc::accounted(st.geo, d1)
            &&& gc::uncollected(st.geo, d) ==> gc::uncollected(st.geo, d1)
            &&& kept(st1.m, st.geo, d1, key, value)
        }),
{
    let geo = st.geo;
    let len = model::record_len(key, value);
    let st1 = model::put_in(st, s, key, value).0;
    lookup::lemma_find(st, d, key);
    let (m2, n, found) = model::find(st, key);
    let stb = KvState { m: m2, ..st };
    lookup::lemma_span(m2, geo, d, a);
    if found {
        let (b, j) = choose|b: int, j: int| #[trigger]
            lookup::hit(geo, d, b, j, key) && lookup::shown(d, b, j, n);
        lemma_hit_live(geo, d, b, j, key);
        assert(d[b].recs[j].name == key);
        lemma_put_over(stb, d, a, s, b, j, n, key, value);
        assert(d[b].dirty != SectorDirtyStatus::Unused) by {
            assert(image::sector_at(st.m.bytes, geo, b, d[b]));
            image::lemma_open_sector(st.m.bytes, geo, b, d[b]);
        }
        lemma_replaced(geo, d, b, j, a, key, value);
        let d1 = replaced(d, b, j, a, key, value);
        let k = d[a].recs.len() as int;
        image::lemma_reach_same(d1[a].recs, d[a].recs, k);
        assert(d1[a].recs[k] == change::live_rec(key, value));
        assert(gc::live_as(geo, d1, a, k, key, value));
        d1
    } else {
        assert forall|v: Seq<u8>| !#[trigger] gc::has_live(geo, d, key, v) by {
            if gc::has_live(geo, d, key, v) {
                let (b, k) = lemma_live_hit(geo, d, key, v);
            }
        }
        lookup::lemma_span(m2, geo, d, a);
        change::lemma_create_in(stb, d, a, s, key, value);
        lemma_added(geo, d, a, key, value);
        lemma_added_good(geo, d, a, key, value);
        let d1 = added(d, a, key, value);
        let k = d[a].recs.len() as int;
        image::lemma_reach_same(d1[a].recs, d[a].recs, k);
        assert(d1[a].recs[k] == change::live_rec(key, value));
        assert(gc::live_as(geo, d1, a, k, key, value));
        d1
    }
}

/// Empty sectors stay empty where the store statuses stay.
pub proof fn lemma_still_empty(geo: Geo, d: Map<int, Sect>, d1: Map<int, Sect>)
    requires
        forall|x: int| (#[trigger] d1[x]).store == d[x].store,
    ensures
        lookup::has_empty(geo, d) ==> lookup::has_empty(geo, d1),
        lookup::has_two_empty(geo, d) ==> lookup::has_two_empty(geo, d1),
{
    if lookup::has_empty(geo, d) {
        let e = choose|x: int|
            db::is_sector(geo, x) && (#[trigger] d[x]).store == SectorStoreStatus::Empty;
        assert(d1[e].store == SectorStoreStatus::Empty);
    }
    if lookup::has_two_empty(geo, d) {
        let (x, y) = choose|x: int, y: int|
            #![trigger d[x], d[y]]
            x != y && db::is_sector(geo, x) && db::is_sector(geo, y) && d[x].store
                == SectorStoreStatus::Empty && d[y].store == SectorStoreStatus::Empty;
        assert(d1[x].store == SectorStoreStatus::Empty && d1[y].store == SectorStoreStatus::Empty);
    }
}

/// A name that is too long is not put anywhere, and nothing changes with it.
proof fn lemma_put_too_long(
    st: KvState,
    d: Map<int, Sect>,
    s: SecInfo,
    key: Seq<u8>,
    value: Seq<u8>,
)
    requires
        fair(st, d),
        key.len() > KV_NAME_MAX,
    ensures
        ({
            let (st1, r) = model::put_in(st, s, key, value);
            &&& r == Err::<(), FdbError>(FdbError::KvNameErr)
            &&& fair(st1, d)
            &&& st1 == (KvState { m: st1.m, ..st })
        }),
{
    let geo = st.geo;
    lookup::lemma_find(st, d, key);
    let (m2, n, found) = model::find(st, key);
    if found {
        let (b, j) = choose|b: int, j: int| #[trigger]
            lookup::hit(geo, d, b, j, key) && lookup::shown(d, b, j, n);
        assert(image::sector_at(st.m.bytes, geo, b, d[b]));
        image::lemma_place(st.m.bytes, geo, b, d[b], j);
        assert(d[b].recs[j].name.len() <= KV_NAME_MAX);
    }
    assert(!found);
}

/// Setting a name to a value: where that succeeds the name then reads as the value, and
/// every other name reads as before; where it fails every name reads as before. It fails
/// with `KvNameErr` or `SavedFull`, the former for a name that is too long. It succeeds for
/// any other name if and only if room is found, and room is found where a sector in use has
/// it, where two sectors are empty and the record fits one of them, or where collecting the
/// first dirty sector makes it. It fails for a record that fits a sector only where no room is
/// left and either every dirty sector was collected, however many there were, or a sector has
/// more bytes left than the record has, but not the room that must stay behind it. Where no
/// garbage was lost none is, so that in the first case no deleted record is left. Where it
/// succeeds the new record is there for good. Where all records are sound they stay so, and
/// where no sector is being collected none is afterwards.
pub proof fn set_then_get(st: KvState, d: Map<int, Sect>, key: Seq<u8>, value: Seq<u8>) -> (d1: Map<
    int,
    Sect,
>)
    requires
        fair(st, d),
    ensures
        ({
            let (st1, r) = model::set_value(st, key, value);
            &&& fair(st1, d1)
            &&& st1 == (KvState { m: st1.m, oldest: st1.oldest, ..st })
            &&& r is Ok ==> model::lookup(st1, key) == Some(value) && key.len() <= KV_NAME_MAX
            &&& r is Err ==> model::lookup(st1, key) == model::lookup(st, key)
            &&& r matches Err(e) ==> e == FdbError::SavedFull || (e == FdbError::KvNameErr
                && key.len() > KV_NAME_MAX)
            &&& forall|k: Seq<u8>|
                k != key ==> #[trigger] model::lookup(
                    st1,
                    k,
                ) == model::lookup(st, k)
            &&& r is Ok <==> key.len() <= KV_NAME_MAX && model::new_room(
                st,
                model::record_len(key, value),
            ).1 is Some
            &&& key.len() <= KV_NAME_MAX && (gc::has_space(
                st.geo,
                d,
                model::record_len(key, value),
            ) || gc::can_free(st.geo, d, st.oldest, model::record_len(key, value))) ==> r is Ok
            &&& r is Ok ==> 16 + 24 + key.len() + value.len() + 88 < st.geo.sec
            &&& r is Err && key.len() <= KV_NAME_MAX ==> !gc::has_space(
                st.geo,
                d1,
                24 + key.len() as int + value.len() as int,
            )
            &&& r is Err && key.len() <= KV_NAME_MAX && 16 + 24 + key.len() + value.len() + 88
                < st.geo.sec ==> gc::clean(st.geo, d1) || gc::has_space(
                st.geo,
                d1,
                24 + key.len() + value.len() - 88,
            )
            &&& iter::all_sound(st.geo, d) ==> iter::all_sound(st.geo, d1)
            &&& gc::accounted(st.geo, d) ==> gc::accounted(st.geo, d1)
            &&& gc::uncollected(st.geo, d) ==> gc::uncollected(st.geo, d1)
            &&& r is Ok ==> kept(st1.m, st.geo, d1, key, value)
        }),
{
    let geo = st.geo;
    let size = model::record_len(key, value);
    let da = lemma_new_room(st, d, size);
    let (sta, slot) = model::new_room(st, size);
    let (st1, r) = model::set_value(st, key, value);
    let d1 = match slot {
        None => da,
        Some(s) => {
            if key.len() > KV_NAME_MAX {
                lemma_put_too_long(sta, da, s, key, value);
                da
            } else {
                let a = choose|a: int| #[trigger]
                    lookup::slot_in(geo, da, a, size, false, s);
                lemma_put_in(sta, da, a, s, key, value)
            }
        },
    };
    assert forall|name: Seq<u8>, v: Seq<u8>| #[trigger]
        gc::has_live(geo, d1, name, v) <==> (if r is Ok && name == key {
            v == value
        } else {
            gc::has_live(geo, d, name, v)
        }) by {
        assert(gc::has_live(geo, da, name, v) <==> gc::has_live(geo, d, name, v));
    }
    if r is Ok {
        lookup_gives_the_live_value(st1, d1, key);
        assert(gc::has_live(geo, d1, key, value));
    } else {
        lemma_same_lookup(st, d, st1, d1, key);
    }
    assert forall|k: Seq<u8>|
        k != key implies #[trigger] model::lookup(
        st1,
        k,
    ) == model::lookup(st, k) by {
        lemma_same_lookup(st, d, st1, d1, k);
    }
    d1
}

/// Whole sectors alone are ever erased: setting, deleting and looking up a name, also where
/// garbage is collected for it, erase one sector at a time.
pub proof fn only_whole_sectors_are_erased(
    st: KvState,
    d: Map<int, Sect>,
    key: Seq<u8>,
    value: Seq<u8>,
)
    requires
        fair(st, d),
    ensures
        db::whole_sectors(st.geo, model::set_value(st, key, value).0.m.erases),
        db::whole_sectors(st.geo, model::delete(st, key).0.m.erases),
        db::whole_sectors(st.geo, model::find(st, key).0.erases),
{
    set_then_get(st, d, key, value);
    delete_removes_the_name(st, d, key);
    lookup::lemma_find(st, d, key);
}

/// Only bit patterns that are subsets of what is there are ever programmed: setting,
/// deleting and looking up a name, also where garbage is collected for it, only clear bits.
pub proof fn programming_only_clears_bits(
    st: KvState,
    d: Map<int, Sect>,
    key: Seq<u8>,
    value: Seq<u8>,
)
    requires
        fair(st, d),
    ensures
        model::set_value(st, key, value).0.m.clears,
        model::delete(st, key).0.m.clears,
        model::find(st, key).0.clears,
{
    set_then_get(st, d, key, value);
    delete_removes_the_name(st, d, key);
    lookup::lemma_find(st, d, key);
}

} // verus!
