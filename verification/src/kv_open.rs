//! What opening the key-value database promises: a database that was closed in good
//! order reads as before, and a medium that holds none comes up with the defaults.
use vstd::prelude::*;

use crate::codec;
use crate::db;
use crate::db::Geo;
use crate::def::{KvStatus, SectorDirtyStatus, SectorStoreStatus, KV_NAME_MAX};
use crate::error::FdbError;
use crate::flash;
use crate::kv_change as change;
use crate::kv_gc as gc;
use crate::kv_image as image;
use crate::kv_image::{Rec, Sect};
use crate::kv_iter as iter;
use crate::kv_laws as laws;
use crate::kv_lookup as lookup;
use crate::kv_model as model;
use crate::kv_model::{KvState, Node, SecInfo, SECTOR_NOT_COMBINED};
use crate::kv_recover as recover;
use crate::kv_recover::Pending;
use crate::kv_resume as resume;
use crate::ring;
use crate::storage::Medium;

verus! {

// ------------------------------------------------------------------------- reopening

pub proof fn lemma_headers_ok(
    m: Medium,
    geo: Geo,
    d: Map<int, Sect>,
    fixed: bool,
    o: int,
    t: int,
)
    requires
        image::holds_image(m, geo, d),
        ring::on_walk(geo, o, t),
    ensures
        model::check_headers(m, geo, fixed, ring::at(geo, o, t), t, 0) == (m, 0int),
    decreases geo.max - t,
{
    let at = ring::at(geo, o, t);
    ring::lemma_walk(geo, o, t);
    image::lemma_head(m, geo, d, at);
    lookup::lemma_next(geo, o, t, model::sector_head(m, at));
    if t + geo.sec < geo.max {
        lemma_headers_ok(m, geo, d, fixed, o, t + geo.sec);
    }
}

pub proof fn lemma_nothing_to_resume(st: KvState, d: Map<int, Sect>, o: int, t: int)
    requires
        image::holds_image(st.m, st.geo, d),
        gc::uncollected(st.geo, d),
        ring::on_walk(st.geo, o, t),
    ensures
        model::resume_gc(st, ring::at(st.geo, o, t), t) == st,
    decreases st.geo.max - t,
{
    let geo = st.geo;
    let at = ring::at(geo, o, t);
    ring::lemma_walk(geo, o, t);
    image::lemma_head(st.m, geo, d, at);
    assert(d[at].dirty != SectorDirtyStatus::Gc);
    lookup::lemma_next(geo, o, t, model::sector_head(st.m, at));
    if t + geo.sec < geo.max {
        lemma_nothing_to_resume(st, d, o, t + geo.sec);
    }
}

proof fn lemma_nothing_in_sector(
    st: KvState,
    d: Map<int, Sect>,
    at: int,
    info: SecInfo,
    i: int,
    n: Node,
)
    requires
        image::holds_image(st.m, st.geo, d),
        gc::at_rest(st.geo, d),
        db::is_sector(st.geo, at),
        info.at == at,
        info.store == d[at].store,
        0 <= i < d[at].recs.len(),
        n.at == image::place(at, d[at].recs, i),
        n.name.len() == KV_NAME_MAX,
    ensures
        ({
            let (st1, stop) = model::recover_in_sector(st, info, n);
            &&& !stop
            &&& st1 == (KvState { m: st1.m, ..st })
            &&& image::read_only(st.m, st1.m, st.geo, d)
        }),
    decreases d[at].recs.len() - i,
{
    let geo = st.geo;
    let recs = d[at].recs;
    image::lemma_step(st.m, geo, d, at, info, i, n);
    let m1 = model::after_read(st.m, geo, n.at);
    let n1 = model::read_node(st.m, geo, n);
    assert(recs[i].status != KvStatus::PreDelete && recs[i].status != KvStatus::PreWrite);
    if i + 1 < recs.len() {
        let st1 = KvState { m: m1, ..st };
        lemma_nothing_in_sector(
            st1,
            d,
            at,
            info,
            i + 1,
            Node { at: image::place(at, recs, i + 1), ..n1 },
        );
    }
}

proof fn lemma_nothing_to_recover(st: KvState, d: Map<int, Sect>, o: int, t: int)
    requires
        image::holds_image(st.m, st.geo, d),
        gc::at_rest(st.geo, d),
        ring::on_walk(st.geo, o, t),
    ensures
        ({
            let st1 = model::recover_from(st, ring::at(st.geo, o, t), t);
            &&& st1 == (KvState { m: st1.m, ..st })
            &&& image::read_only(st.m, st1.m, st.geo, d)
        }),
    decreases st.geo.max - t,
{
    let geo = st.geo;
    let at = ring::at(geo, o, t);
    ring::lemma_walk(geo, o, t);
    image::lemma_head(st.m, geo, d, at);
    let s = model::sector_head(st.m, at);
    assert(image::sector_at(st.m.bytes, geo, at, d[at]));
    image::lemma_open_sector(st.m.bytes, geo, at, d[at]);
    let n0 = Node { at: at + 16, ..model::blank_node() };
    if d[at].recs.len() > 0 {
        assert(image::place(at, d[at].recs, 0) == at + 16);
        lemma_nothing_in_sector(st, d, at, s, 0, n0);
    }
    let st1 = if model::has_nodes(s) {
        model::recover_in_sector(st, s, n0).0
    } else {
        st
    };
    lookup::lemma_next(geo, o, t, s);
    if t + geo.sec < geo.max {
        lemma_nothing_to_recover(st1, d, o, t + geo.sec);
    }
}

/// What is left to do once the headers are in order: nothing, where nothing waits to be
/// finished.
proof fn lemma_finish(st: KvState, d: Map<int, Sect>)
    requires
        laws::fair(st, d),
        gc::uncollected(st.geo, d),
    ensures
        ({
            let st3 = model::resume_gc(st, st.oldest, 0);
            let st4 = model::recover_rounds(st3, st.geo.max);
            &&& st4 == (KvState { m: st4.m, ..st })
            &&& image::read_only(st.m, st4.m, st.geo, d)
            &&& laws::fair(st4, d)
        }),
{
    let geo = st.geo;
    db::lemma_geo(geo);
    vstd::arithmetic::div_mod::lemma_small_mod(0, geo.sec as nat);
    assert(ring::on_walk(geo, st.oldest, 0));
    ring::lemma_walk(geo, st.oldest, 0);
    lemma_nothing_to_resume(st, d, st.oldest, 0);
    lemma_nothing_to_recover(st, d, st.oldest, 0);
}

/// Nothing is unfinished in a database between two operations.
proof fn lemma_no_pending(geo: Geo, d: Map<int, Sect>)
    requires
        gc::at_rest(geo, d),
    ensures
        recover::pends(geo, d, (Pending { del: None, put: None })),
{
    assert forall|x: int, y: int| db::is_sector(geo, x) && 0 <= y < d[x].recs.len() implies (
    #[trigger] d[x].recs[y]).status != KvStatus::PreDelete && d[x].recs[y].status
        != KvStatus::PreWrite by {}
}

/// Where nothing is unfinished what is alive is what is live.
pub proof fn lemma_alive_live(geo: Geo, d: Map<int, Sect>, d1: Map<int, Sect>)
    ensures
        resume::same_alive(
            geo,
            d,
            Pending { del: None, put: None },
            d1,
            Pending { del: None, put: None },
        ) <==> gc::same_live(geo, d, d1),
{
    let none = Pending { del: None, put: None };
    if resume::same_alive(geo, d, none, d1, none) {
        assert forall|name: Seq<u8>, v: Seq<u8>| #[trigger]
            gc::has_live(geo, d1, name, v) <==> gc::has_live(geo, d, name, v) by {
            assert(resume::alive(geo, d1, none, name, v) <==> resume::alive(
                geo,
                d,
                none,
                name,
                v,
            ));
        }
    }
    if gc::same_live(geo, d, d1) {
        assert forall|name: Seq<u8>, v: Seq<u8>| #[trigger]
            resume::alive(geo, d1, none, name, v) <==> resume::alive(geo, d, none, name, v) by {
            assert(gc::has_live(geo, d1, name, v) <==> gc::has_live(geo, d, name, v));
        }
    }
}

/// What is left to do once the headers are in order: at most collecting garbage is resumed.
proof fn lemma_resumes(st: KvState, d: Map<int, Sect>) -> (d1: Map<int, Sect>)
    requires
        laws::fair(st, d),
        st.recovering,
    ensures
        ({
            let st1 = model::recover_rounds(model::resume_gc(st, st.oldest, 0), st.geo.max);
            &&& st1 == (KvState { m: st1.m, oldest: st1.oldest, ..st })
            &&& laws::fair(st1, d1)
            &&& gc::same_live(st.geo, d, d1)
            &&& gc::uncollected(st.geo, d) ==> d1 == d && image::read_only(
                st.m,
                st1.m,
                st.geo,
                d,
            ) && st1.oldest == st.oldest
        }),
{
    if gc::uncollected(st.geo, d) {
        lemma_finish(st, d);
        d
    } else {
        let none = Pending { del: None, put: None };
        lemma_no_pending(st.geo, d);
        let d1 = resume::lemma_rest(st, d, none);
        lemma_alive_live(st.geo, d, d1);
        d1
    }
}

/// Whether the sector at `x` holds records and the one right before it is empty.
pub open spec fn starts_run(geo: Geo, d: Map<int, Sect>, x: int) -> bool {
    &&& db::is_sector(geo, x)
    &&& db::is_sector(geo, x - geo.sec)
    &&& d[x].recs.len() > 0
    &&& d[x - geo.sec].recs.len() == 0
}

/// Whether the sector at `o` is the one that a database is taken to start with when it is
/// opened: the last one with records right behind an empty one, or the first of all where there
/// is none such.
pub open spec fn opens_at(geo: Geo, d: Map<int, Sect>, o: int) -> bool {
    if exists|x: int| #[trigger] starts_run(geo, d, x) {
        starts_run(geo, d, o) && forall|x: int| x > o ==> !#[trigger] starts_run(geo, d, x)
    } else {
        o == 0
    }
}

proof fn lemma_opens_at(
    m: Medium,
    geo: Geo,
    d: Map<int, Sect>,
    t: int,
    before: SectorStoreStatus,
    oldest: int,
)
    requires
        image::holds_image(m, geo, d),
        ring::on_walk(geo, 0, t),
        before == SectorStoreStatus::Empty <==> t > 0 && d[t - geo.sec].recs.len() == 0,
    ensures
        ({
            let r = model::oldest_from(m, geo, t, t, before, oldest);
            ||| r == oldest && forall|x: int| x >= t ==> !#[trigger] starts_run(geo, d, x)
            ||| r >= t && starts_run(geo, d, r) && forall|x: int|
                x > r ==> !#[trigger] starts_run(geo, d, x)
        }),
    decreases geo.max - t,
{
    ring::lemma_walk(geo, 0, t);
    assert(ring::at(geo, 0, t) == t);
    image::lemma_head(m, geo, d, t);
    let s = model::sector_head(m, t);
    lookup::lemma_next(geo, 0, t, s);
    assert(image::sector_at(m.bytes, geo, t, d[t]));
    image::lemma_open_sector(m.bytes, geo, t, d[t]);
    if t > 0 {
        vstd::arithmetic::div_mod::lemma_mod_add_multiples_vanish(t - geo.sec, geo.sec);
        vstd::arithmetic::div_mod::lemma_fundamental_div_mod(t, geo.sec);
        assert(t >= geo.sec) by (nonlinear_arith)
            requires
                t > 0,
                geo.sec > 0,
                t == geo.sec * (t / geo.sec) + t % geo.sec,
                t % geo.sec == 0,
        ;
        db::lemma_aligned(geo, t - geo.sec);
    }
    let found = before == SectorStoreStatus::Empty && (s.store == SectorStoreStatus::Full || s.store
        == SectorStoreStatus::Using);
    assert(found <==> starts_run(geo, d, t));
    let oldest1 = if found {
        s.at
    } else {
        oldest
    };
    if t + geo.sec < geo.max {
        ring::lemma_walk(geo, 0, t + geo.sec);
        assert(ring::at(geo, 0, t + geo.sec) == t + geo.sec);
        lemma_opens_at(m, geo, d, t + geo.sec, s.store, oldest1);
    }
    assert forall|x: int| t < x < t + geo.sec implies !#[trigger] starts_run(geo, d, x) by {
        if starts_run(geo, d, x) {
            db::lemma_apart(geo, x, t);
        }
    }
}

/// Opening a database that was left in good order: every name reads as before. Where no sector
/// was left as being collected, nothing changes on a medium whose torn records are marked, and
/// the oldest sector is the last one with records right behind an empty one.
pub proof fn reopen_keeps_contents(
    st: KvState,
    d: Map<int, Sect>,
    defaults: Seq<(Seq<u8>, Seq<u8>)>,
    fixed: bool,
) -> (d1: Map<int, Sect>)
    requires
        laws::fair(st, d),
    ensures
        ({
            let (st1, r) = model::open_db(st.m, st.geo, defaults, fixed);
            &&& r is Ok
            &&& st1.geo == st.geo
            &&& laws::fair(st1, d1)
            &&& st1.ready
            &&& gc::uncollected(st.geo, d) ==> d1 == d
            &&& gc::uncollected(st.geo, d) && image::settled(st.geo, d) ==> st1.m == st.m
            &&& gc::uncollected(st.geo, d) ==> opens_at(st.geo, d, st1.oldest)
            &&& forall|k: Seq<u8>| #[trigger]
                    model::lookup(st1, k) == model::lookup(st, k)
        }),
{
    let geo = st.geo;
    let m = st.m;
    reveal(model::load);
    ring::lemma_first(geo, 0);
    assert(patched(m, geo, d));
    lemma_oldest(m, geo, d, 0, SectorStoreStatus::Unused, 0);
    let st0 = resume::opening(m, geo, defaults, fixed);
    ring::lemma_first(geo, st0.oldest);
    lemma_headers_ok(m, geo, d, fixed, st0.oldest, 0);
    db::lemma_geo(geo);
    vstd::arithmetic::div_mod::lemma_div_non_zero(geo.max, geo.sec);
    lemma_opens_at(m, geo, d, 0, SectorStoreStatus::Unused, 0);
    assert(opens_at(geo, d, st0.oldest)) by {
        if exists|x: int| #[trigger] starts_run(geo, d, x) {
            let x = choose|x: int| #[trigger] starts_run(geo, d, x);
            assert(x >= 0);
        }
    }
    let d1 = lemma_resumes(st0, d);
    let (st1, r) = model::open_db(m, geo, defaults, fixed);
    assert forall|k: Seq<u8>| #[trigger]
        model::lookup(st1, k) == model::lookup(st, k) by {
        laws::lemma_same_lookup(st, d, st1, d1, k);
    }
    d1
}

// ------------------------------------------------------------------- writing defaults

/// The image of a database whose sectors are all fresh.
pub open spec fn blank_image() -> Map<int, Sect> {
    Map::new(|a: int| true, |a: int| change::fresh())
}

proof fn lemma_behind(geo: Geo, at: int)
    requires
        model::geo_ok(geo),
        db::is_sector(geo, at),
    ensures
        at + geo.sec == geo.max || db::is_sector(geo, at + geo.sec),
{
    vstd::arithmetic::div_mod::lemma_mod_add_multiples_vanish(at, geo.sec);
    if at + geo.sec < geo.max {
        db::lemma_aligned(geo, at + geo.sec);
    }
}

/// Formatting every sector from `at` on.
proof fn lemma_format_from(m: Medium, geo: Geo, at: int)
    requires
        model::geo_ok(geo),
        m.budget is None,
        geo.max <= m.bytes.len(),
        at == geo.max || db::is_sector(geo, at),
    ensures
        ({
            let (m1, r) = model::format_from(m, geo, at);
            &&& r == Ok::<(), FdbError>(())
            &&& m1.budget is None
            &&& m1.clears == m.clears
            &&& db::whole_sectors(geo, m.erases) ==> db::whole_sectors(geo, m1.erases)
            &&& m.flushed.len() == m.bytes.len() ==> m1.flushed.len() == m1.bytes.len()
            &&& m1.bytes.len() == m.bytes.len()
            &&& forall|a: int|
                db::is_sector(geo, a) && (a >= at || image::sector_at(
                    m.bytes,
                    geo,
                    a,
                    change::fresh(),
                )) ==> #[trigger] image::sector_at(m1.bytes, geo, a, change::fresh())
        }),
    decreases geo.max + geo.sec - at,
{
    if at < geo.max {
        change::lemma_format_sector(m, geo, at);
        let m1 = model::format(m, geo, at, SECTOR_NOT_COMBINED as int).0;
        lemma_behind(geo, at);
        lemma_format_from(m1, geo, at + geo.sec);
        let m2 = model::format_from(m, geo, at).0;
        assert forall|a: int|
            db::is_sector(geo, a) && (a >= at || image::sector_at(
                m.bytes,
                geo,
                a,
                change::fresh(),
            )) implies #[trigger] image::sector_at(m2.bytes, geo, a, change::fresh()) by {
            if a == at {
                assert(image::sector_at(m1.bytes, geo, a, change::fresh()));
            } else {
                db::lemma_apart(geo, a, at);
                if a < at {
                    image::lemma_sector_frame(m.bytes, m1.bytes, geo, a, change::fresh());
                    assert(image::sector_at(m1.bytes, geo, a, change::fresh()));
                }
            }
        }
    }
}

/// The length of the default records from the `i`th on.
pub open spec fn total(defaults: Seq<(Seq<u8>, Seq<u8>)>, i: int) -> int
    decreases defaults.len() - i,
{
    if i >= defaults.len() {
        0
    } else {
        model::record_len(defaults[i].0, defaults[i].1) + total(defaults, i + 1)
    }
}

/// Whether the defaults can be stored: they fit one sector, their names are not too long,
/// and no name occurs twice.
pub open spec fn storable(geo: Geo, defaults: Seq<(Seq<u8>, Seq<u8>)>) -> bool {
    &&& 16 + total(defaults, 0) + 88 < geo.sec || defaults.len() == 0
    &&& forall|i: int|
        0 <= i < defaults.len() ==> (#[trigger] defaults[i]).0.len() <= KV_NAME_MAX
    &&& forall|i: int, j: int|
        0 <= i < j < defaults.len() ==> (#[trigger] defaults[i]).0 != (#[trigger] defaults[j]).0
}

/// Whether `name` and `value` are among the first `i` defaults.
pub open spec fn among(
    defaults: Seq<(Seq<u8>, Seq<u8>)>,
    i: int,
    name: Seq<u8>,
    value: Seq<u8>,
) -> bool {
    exists|k: int| 0 <= k < i && #[trigger] defaults[k] == (name, value)
}

/// Whether what is live are the first `i` defaults.
pub open spec fn holds_defaults(
    geo: Geo,
    d: Map<int, Sect>,
    defaults: Seq<(Seq<u8>, Seq<u8>)>,
    i: int,
) -> bool {
    forall|name: Seq<u8>, v: Seq<u8>| #[trigger]
        gc::has_live(geo, d, name, v) <==> among(defaults, i, name, v)
}

/// Whether there is room for `need` bytes of records without collecting garbage.
pub open spec fn spacious(geo: Geo, d: Map<int, Sect>, need: int) -> bool {
    ||| exists|t: int| #[trigger] gc::reserve_in(geo, d, -1, need, t) && d[t].store
        == SectorStoreStatus::Using
    ||| lookup::has_two_empty(geo, d) && 16 + need + 88 < geo.sec
}

/// Whether all records are sound and no sector is being collected.
pub open spec fn tidy(geo: Geo, d: Map<int, Sect>) -> bool {
    iter::all_sound(geo, d) && gc::uncollected(geo, d)
}

/// Creating a record with a new name where there is room for it.
proof fn lemma_create_new(
    st: KvState,
    d: Map<int, Sect>,
    key: Seq<u8>,
    value: Seq<u8>,
    need: int,
) -> (d1: Map<int, Sect>)
    requires
        laws::fair(st, d),
        key.len() <= KV_NAME_MAX,
        forall|v: Seq<u8>| !#[trigger] gc::has_live(st.geo, d, key, v),
        spacious(st.geo, d, need),
        model::record_len(key, value) <= need,
    ensures
        ({
            let (st1, r) = model::create(st, None, key, value);
            &&& r is Ok
            &&& laws::fair(st1, d1)
            &&& st1 == (KvState { m: st1.m, ..st })
            &&& spacious(st.geo, d1, need - model::record_len(key, value))
            &&& tidy(st.geo, d) ==> tidy(st.geo, d1)
            &&& gc::accounted(st.geo, d) ==> gc::accounted(st.geo, d1)
            &&& forall|name: Seq<u8>, v: Seq<u8>| #[trigger]
                gc::has_live(st.geo, d1, name, v) <==> (name == key && v == value)
                    || gc::has_live(st.geo, d, name, v)
        }),
{
    reveal(model::new_room);
    let geo = st.geo;
    let size = model::record_len(key, value);
    lookup::lemma_find_room(st, d, size);
    let (st1, slot) = model::find_room(st, size);
    let using = exists|t: int| #[trigger] gc::reserve_in(geo, d, -1, need, t) && d[t].store
        == SectorStoreStatus::Using;
    let t0 = choose|t: int| #[trigger] gc::reserve_in(geo, d, -1, need, t) && d[t].store
        == SectorStoreStatus::Using;
    if using {
        assert(lookup::can_take(geo, d, t0, SectorStoreStatus::Using, size, false));
        lookup::lemma_span(st.m, geo, d, t0);
    } else {
        let (x, y) = choose|x: int, y: int|
            #![trigger d[x], d[y]]
            x != y && db::is_sector(geo, x) && db::is_sector(geo, y) && d[x].store
                == SectorStoreStatus::Empty && d[y].store == SectorStoreStatus::Empty;
        assert(image::sector_at(st.m.bytes, geo, x, d[x]));
        image::lemma_open_sector(st.m.bytes, geo, x, d[x]);
        assert(image::span(d[x].recs) == 0);
        assert(lookup::can_take(geo, d, x, SectorStoreStatus::Empty, size, false));
    }
    assert(slot is Some);
    let s = slot.unwrap();
    let a = choose|a: int| #[trigger] lookup::slot_in(geo, d, a, size, false, s);
    assert(lookup::slot_in(geo, d, a, size, false, s));
    lookup::lemma_span(st1.m, geo, d, a);
    change::lemma_create_in(st1, d, a, s, key, value);
    laws::lemma_added(geo, d, a, key, value);
    laws::lemma_added_good(geo, d, a, key, value);
    let d1 = laws::added(d, a, key, value);
    gc::lemma_push_span(d[a].recs, change::live_rec(key, value));
    assert(image::span(d1[a].recs) == image::span(d[a].recs) + size);
    if using {
        assert(gc::reserve_in(geo, d1, -1, need - size, t0) && d1[t0].store
            == SectorStoreStatus::Using);
    } else if d[a].store == SectorStoreStatus::Empty {
        assert(image::sector_at(st.m.bytes, geo, a, d[a]));
        image::lemma_open_sector(st.m.bytes, geo, a, d[a]);
        assert(image::span(d[a].recs) == 0);
        assert(gc::reserve_in(geo, d1, -1, need - size, a) && d1[a].store
            == SectorStoreStatus::Using);
    } else {
        let (x, y) = choose|x: int, y: int|
            #![trigger d[x], d[y]]
            x != y && db::is_sector(geo, x) && db::is_sector(geo, y) && d[x].store
                == SectorStoreStatus::Empty && d[y].store == SectorStoreStatus::Empty;
        assert(d1[x].store == SectorStoreStatus::Empty && d1[y].store
            == SectorStoreStatus::Empty);
    }
    if iter::all_sound(geo, d) {
        assert forall|x: int, k: int|
            db::is_sector(geo, x) && 0 <= k < d1[x].recs.len() implies (
        #[trigger] d1[x].recs[k]).sound by {
            if x == a && k == d[a].recs.len() {
                assert(d1[a].recs[k] == change::live_rec(key, value));
            } else {
                assert(d[x].recs[k].sound);
            }
        }
    }
    d1
}

/// Creating the defaults from the `i`th on.
proof fn lemma_create_defaults(st: KvState, d: Map<int, Sect>, i: int) -> (d1: Map<int, Sect>)
    requires
        laws::fair(st, d),
        0 <= i <= st.defaults.len(),
        storable(st.geo, st.defaults),
        i < st.defaults.len() ==> spacious(st.geo, d, total(st.defaults, i)),
        holds_defaults(st.geo, d, st.defaults, i),
    ensures
        ({
            let st1 = model::create_defaults(st, i);
            &&& laws::fair(st1, d1)
            &&& tidy(st.geo, d) ==> tidy(st.geo, d1)
            &&& gc::accounted(st.geo, d) ==> gc::accounted(st.geo, d1)
            &&& i == st.defaults.len() ==> d1 == d
            &&& st1 == (KvState { m: st1.m, ..st })
            &&& holds_defaults(st.geo, d1, st.defaults, st.defaults.len() as int)
        }),
    decreases st.defaults.len() - i,
{
    let geo = st.geo;
    if i >= st.defaults.len() {
        d
    } else {
        let (key, value) = st.defaults[i];
        assert(st.defaults[i] == (key, value));
        assert forall|v: Seq<u8>| !#[trigger] gc::has_live(geo, d, key, v) by {
            if gc::has_live(geo, d, key, v) {
                assert(among(st.defaults, i, key, v));
                let k = choose|k: int| 0 <= k < i && #[trigger] st.defaults[k] == (key, v);
                assert(st.defaults[k].0 == st.defaults[i].0);
            }
        }
        lemma_total(st.defaults, i + 1);
        let d1 = lemma_create_new(st, d, key, value, total(st.defaults, i));
        let st1 = model::create(st, None, key, value).0;
        assert(holds_defaults(geo, d1, st.defaults, i + 1)) by {
            assert forall|name: Seq<u8>, v: Seq<u8>| #[trigger]
                gc::has_live(geo, d1, name, v) <==> among(st.defaults, i + 1, name, v) by {
                if among(st.defaults, i + 1, name, v) {
                    let k = choose|k: int|
                        0 <= k < i + 1 && #[trigger] st.defaults[k] == (name, v);
                    if k < i {
                        assert(among(st.defaults, i, name, v));
                    }
                }
                if gc::has_live(geo, d, name, v) {
                    let k = choose|k: int| 0 <= k < i && #[trigger] st.defaults[k] == (name, v);
                    assert(st.defaults[k] == (name, v));
                }
            }
        }
        lemma_create_defaults(st1, d1, i + 1)
    }
}

proof fn lemma_total(defaults: Seq<(Seq<u8>, Seq<u8>)>, i: int)
    ensures
        total(defaults, i) >= 0,
    decreases defaults.len() - i,
{
    if i < defaults.len() {
        lemma_total(defaults, i + 1);
    }
}

/// A database with nothing but fresh sectors.
proof fn lemma_blank(st: KvState)
    requires
        model::geo_ok(st.geo),
        st.geo.max <= st.m.bytes.len() <= 0xFFFF_FFFF,
        st.m.budget is None,
        st.m.clears,
        db::whole_sectors(st.geo, st.m.erases),
        st.m.flushed.len() == st.m.bytes.len(),
        db::is_sector(st.geo, st.oldest),
        !st.gc_request,
        forall|a: int|
            db::is_sector(st.geo, a) ==> #[trigger] image::sector_at(
                st.m.bytes,
                st.geo,
                a,
                change::fresh(),
            ),
    ensures
        laws::fair(st, blank_image()),
        tidy(st.geo, blank_image()),
        gc::accounted(st.geo, blank_image()),
        lookup::has_two_empty(st.geo, blank_image()),
        holds_defaults(st.geo, blank_image(), st.defaults, 0),
{
    let geo = st.geo;
    let d = blank_image();
    db::lemma_geo(geo);
    vstd::arithmetic::div_mod::lemma_small_mod(0, geo.sec as nat);
    assert(db::is_sector(geo, 0));
    lemma_behind(geo, 0);
    assert(db::is_sector(geo, 0 + geo.sec));
    assert(d[0].store == SectorStoreStatus::Empty);
    assert(d[geo.sec].store == SectorStoreStatus::Empty);
    assert forall|a: int| db::is_sector(geo, a) implies image::sector_at(
        st.m.bytes,
        geo,
        a,
        #[trigger] d[a],
    ) by {}
    assert forall|a: int, j: int| !#[trigger] gc::live(geo, d, a, j) by {}
    assert forall|name: Seq<u8>, v: Seq<u8>| !#[trigger] gc::has_live(geo, d, name, v) by {
        if gc::has_live(geo, d, name, v) {
            let (a, j) = choose|a: int, j: int| gc::live_as(geo, d, a, j, name, v);
            assert(gc::live(geo, d, a, j));
        }
    }
}

/// Resetting a database to its defaults, whatever its medium held.
proof fn lemma_reset(st: KvState) -> (d1: Map<int, Sect>)
    requires
        model::state_ok(st),
        st.geo.max <= st.m.bytes.len() <= 0xFFFF_FFFF,
        st.m.budget is None,
        st.m.clears,
        db::whole_sectors(st.geo, st.m.erases),
        st.m.flushed.len() == st.m.bytes.len(),
        !st.gc_request,
        storable(st.geo, st.defaults),
    ensures
        ({
            let (st1, r) = model::set_defaults(st);
            &&& r == Ok::<(), FdbError>(())
            &&& laws::fair(st1, d1)
            &&& tidy(st.geo, d1)
            &&& gc::accounted(st.geo, d1)
            &&& st.defaults.len() == 0 ==> d1 == blank_image() && lookup::has_two_empty(st.geo, d1)
            &&& st1 == (KvState { m: st1.m, oldest: 0, ..st })
            &&& holds_defaults(st.geo, d1, st.defaults, st.defaults.len() as int)
        }),
{
    let geo = st.geo;
    ring::lemma_first(geo, st.oldest);
    lemma_format_from(st.m, geo, 0);
    let m1 = model::format_from(st.m, geo, 0).0;
    let sta = KvState { m: m1, ..st };
    lemma_blank(sta);
    lemma_create_defaults(sta, blank_image(), 0)
}

/// Resetting a database to its defaults, whatever its medium held: the names that can
/// be looked up are then those of the defaults, each with its value. All records are sound, and
/// without defaults every sector is empty.
pub proof fn set_default_resets(st: KvState) -> (d1: Map<int, Sect>)
    requires
        model::state_ok(st),
        st.geo.max <= st.m.bytes.len() <= 0xFFFF_FFFF,
        st.m.budget is None,
        st.m.clears,
        db::whole_sectors(st.geo, st.m.erases),
        st.m.flushed.len() == st.m.bytes.len(),
        !st.gc_request,
        storable(st.geo, st.defaults),
    ensures
        ({
            let (st1, r) = model::set_defaults(st);
            &&& r == Ok::<(), FdbError>(())
            &&& laws::fair(st1, d1)
            &&& tidy(st.geo, d1)
            &&& gc::accounted(st.geo, d1)
            &&& st.defaults.len() == 0 ==> d1 == blank_image() && lookup::has_two_empty(st.geo, d1)
            &&& st1 == (KvState { m: st1.m, oldest: 0, ..st })
            &&& forall|i: int|
                0 <= i < st.defaults.len() ==> model::lookup(st1, (#[trigger] st.defaults[i]).0)
                    == Some(st.defaults[i].1)
            &&& forall|k: Seq<u8>|
                (forall|i: int| 0 <= i < st.defaults.len() ==> (#[trigger] st.defaults[i]).0 != k)
                    ==> (#[trigger] model::lookup(st1, k)) is None
        }),
{
    let d1 = lemma_reset(st);
    lemma_defaults_lookup(model::set_defaults(st).0, d1);
    d1
}

/// What can be looked up in a database that holds its defaults.
proof fn lemma_defaults_lookup(st: KvState, d: Map<int, Sect>)
    requires
        laws::fair(st, d),
        storable(st.geo, st.defaults),
        holds_defaults(st.geo, d, st.defaults, st.defaults.len() as int),
    ensures
        forall|i: int|
            0 <= i < st.defaults.len() ==> model::lookup(st, (#[trigger] st.defaults[i]).0)
                == Some(st.defaults[i].1),
        forall|k: Seq<u8>|
            (forall|i: int| 0 <= i < st.defaults.len() ==> (#[trigger] st.defaults[i]).0 != k)
                ==> (#[trigger] model::lookup(st, k)) is None,
{
    let geo = st.geo;
    let n = st.defaults.len() as int;
    assert forall|i: int| 0 <= i < n implies model::lookup(st, (#[trigger] st.defaults[i]).0)
        == Some(st.defaults[i].1) by {
        let (key, value) = st.defaults[i];
        laws::lookup_gives_the_live_value(st, d, key);
        assert(among(st.defaults, n, key, value)) by {
            assert(st.defaults[i] == (key, value));
        }
        assert(gc::has_live(geo, d, key, value));
    }
    assert forall|k: Seq<u8>|
        (forall|i: int| 0 <= i < st.defaults.len() ==> (#[trigger] st.defaults[i]).0 != k) implies (
    #[trigger] model::lookup(st, k)) is None by {
        laws::lookup_gives_the_live_value(st, d, k);
        assert forall|v: Seq<u8>| !#[trigger] gc::has_live(geo, d, k, v) by {
            if gc::has_live(geo, d, k, v) {
                assert(among(st.defaults, n, k, v));
                let i = choose|i: int| 0 <= i < n && #[trigger] st.defaults[i] == (k, v);
                assert(st.defaults[i].0 == k);
            }
        }
    }
}

// ------------------------------------------------------------------ bad sector headers

/// Whether every sector holds what `d` says or, where `d` has a fresh sector, has a bad
/// header.
pub open spec fn patched(m: Medium, geo: Geo, d: Map<int, Sect>) -> bool {
    forall|a: int|
        db::is_sector(geo, a) ==> image::sector_at(m.bytes, geo, a, #[trigger] d[a]) || (
        !model::sector_head(m, a).check_ok && d[a] == change::fresh())
}

/// Whether some header is bad.
pub open spec fn some_bad(m: Medium, geo: Geo) -> bool {
    exists|a: int| db::is_sector(geo, a) && !(#[trigger] model::sector_head(m, a)).check_ok
}

/// What the header of a sector says, good or bad.
proof fn lemma_any_head(m: Medium, geo: Geo, d: Map<int, Sect>, a: int)
    requires
        geo.sec >= 16,
        patched(m, geo, d),
        db::is_sector(geo, a),
    ensures
        ({
            let s = model::sector_head(m, a);
            &&& s.at == a
            &&& s.combined == SECTOR_NOT_COMBINED
            &&& s.check_ok ==> image::sector_at(m.bytes, geo, a, d[a])
            &&& !s.check_ok ==> d[a] == change::fresh()
        }),
{
    reveal(model::sector_head);
    assert(d[a] == d[a]);
    if image::sector_at(m.bytes, geo, a, d[a]) {
        image::lemma_one_head(m, geo, a, d[a]);
    }
}

/// The oldest sector is a sector, whatever headers are bad.
pub proof fn lemma_oldest(
    m: Medium,
    geo: Geo,
    d: Map<int, Sect>,
    t: int,
    before: SectorStoreStatus,
    oldest: int,
)
    requires
        patched(m, geo, d),
        ring::on_walk(geo, 0, t),
        db::is_sector(geo, oldest),
    ensures
        db::is_sector(
            geo,
            model::oldest_from(m, geo, ring::at(geo, 0, t), t, before, oldest),
        ),
    decreases geo.max - t,
{
    let at = ring::at(geo, 0, t);
    ring::lemma_walk(geo, 0, t);
    lemma_any_head(m, geo, d, at);
    let s = model::sector_head(m, at);
    lookup::lemma_next(geo, 0, t, s);
    let oldest1 = if before == SectorStoreStatus::Empty && (s.store == SectorStoreStatus::Full
        || s.store == SectorStoreStatus::Using) {
        s.at
    } else {
        oldest
    };
    if t + geo.sec < geo.max {
        lemma_oldest(m, geo, d, t + geo.sec, s.store, oldest1);
    }
}

/// A header depends on the bytes of its sector alone.
pub proof fn lemma_head_frame(m: Medium, m1: Medium, geo: Geo, a: int)
    requires
        geo.sec >= 16,
        0 <= a,
        a + geo.sec <= m.bytes.len(),
        image::same_on(m.bytes, m1.bytes, a, a + geo.sec),
    ensures
        model::sector_head(m1, a) == model::sector_head(m, a),
{
    reveal(model::sector_head);
    assert(m.fetch(a, flash::zeros(16)) =~= m1.fetch(a, flash::zeros(16)));
}

/// Checking the headers formats the sectors with bad ones, and counts them.
#[verifier::rlimit(40)]
proof fn lemma_repair(m: Medium, geo: Geo, d: Map<int, Sect>, o: int, t: int, bad: int)
    requires
        ring::on_walk(geo, o, t),
        m.budget is None,
        geo.max <= m.bytes.len(),
        patched(m, geo, d),
        forall|a: int|
            db::is_sector(geo, a) && ring::dist(geo, o, a) < t ==> image::sector_at(
                m.bytes,
                geo,
                a,
                #[trigger] d[a],
            ),
    ensures
        ({
            let (m1, n) = model::check_headers(m, geo, false, ring::at(geo, o, t), t, bad);
            &&& m1.budget is None
            &&& m1.clears == m.clears
            &&& db::whole_sectors(geo, m.erases) ==> db::whole_sectors(geo, m1.erases)
            &&& m.flushed.len() == m.bytes.len() ==> m1.flushed.len() == m1.bytes.len()
            &&& m1.bytes.len() == m.bytes.len()
            &&& image::image(m1.bytes, geo, d)
            &&& geo.sec * n <= geo.sec * bad + geo.max - t
            &&& (forall|a: int|
                db::is_sector(geo, a) && ring::dist(geo, o, a) >= t
                    ==> !(#[trigger] model::sector_head(m, a)).check_ok) ==> geo.sec * n == geo.sec
                * bad + geo.max - t
            &&& (exists|a: int|
                db::is_sector(geo, a) && ring::dist(geo, o, a) >= t && (
                #[trigger] model::sector_head(m, a)).check_ok) ==> geo.sec * n < geo.sec * bad
                + geo.max - t
        }),
    decreases geo.max - t,
{
    let at = ring::at(geo, o, t);
    ring::lemma_walk(geo, o, t);
    lemma_any_head(m, geo, d, at);
    let s = model::sector_head(m, at);
    lookup::lemma_next(geo, o, t, s);
    let (m1, bad1) = if s.check_ok {
        (m, bad)
    } else {
        (model::format(m, geo, at, SECTOR_NOT_COMBINED as int).0, bad + 1)
    };
    if !s.check_ok {
        change::lemma_format_sector(m, geo, at);
    }
    assert(geo.sec * (bad + 1) == geo.sec * bad + geo.sec) by (nonlinear_arith);
    assert forall|a: int| db::is_sector(geo, a) && a != at implies image::same_on(
        m.bytes,
        m1.bytes,
        a,
        a + geo.sec,
    ) && #[trigger] model::sector_head(m1, a) == model::sector_head(m, a) by {
        db::lemma_apart(geo, a, at);
        db::lemma_geo(geo);
        lemma_head_frame(m, m1, geo, a);
    }
    assert forall|a: int| db::is_sector(geo, a) implies image::sector_at(
        m1.bytes,
        geo,
        a,
        #[trigger] d[a],
    ) || (!model::sector_head(m1, a).check_ok && d[a] == change::fresh()) by {
        if a != at {
            assert(model::sector_head(m1, a) == model::sector_head(m, a));
            if image::sector_at(m.bytes, geo, a, d[a]) {
                image::lemma_sector_frame(m.bytes, m1.bytes, geo, a, d[a]);
            }
        }
    }
    assert(image::sector_at(m1.bytes, geo, at, d[at]));
    assert forall|a: int|
        db::is_sector(geo, a) && ring::dist(geo, o, a) < t + geo.sec implies image::sector_at(
        m1.bytes,
        geo,
        a,
        #[trigger] d[a],
    ) by {
        if a != at {
            if ring::dist(geo, o, a) >= t {
                ring::lemma_ahead(geo, o, t, a);
            }
            assert(model::sector_head(m1, a) == model::sector_head(m, a));
            assert(image::sector_at(m.bytes, geo, a, d[a]));
            image::lemma_sector_frame(m.bytes, m1.bytes, geo, a, d[a]);
        }
    }
    if t + geo.sec < geo.max {
        lemma_repair(m1, geo, d, o, t + geo.sec, bad1);
        if forall|a: int|
            db::is_sector(geo, a) && ring::dist(geo, o, a) >= t ==> !(
            #[trigger] model::sector_head(m, a)).check_ok {
            assert forall|a: int|
                db::is_sector(geo, a) && ring::dist(geo, o, a) >= t + geo.sec implies !(
            #[trigger] model::sector_head(m1, a)).check_ok by {
                assert(!model::sector_head(m, a).check_ok);
            }
            assert(!model::sector_head(m, at).check_ok);
        }
        if exists|a: int|
            db::is_sector(geo, a) && ring::dist(geo, o, a) >= t && (
            #[trigger] model::sector_head(m, a)).check_ok {
            let g = choose|a: int|
                db::is_sector(geo, a) && ring::dist(geo, o, a) >= t && (
                #[trigger] model::sector_head(m, a)).check_ok;
            if g != at {
                ring::lemma_ahead(geo, o, t, g);
                assert(model::sector_head(m1, g).check_ok);
            }
        }
    } else {
        assert(t + geo.sec == geo.max);
        assert forall|a: int| db::is_sector(geo, a) implies ring::dist(geo, o, a) < geo.max by {
            ring::lemma_dist(geo, o, a);
        }
        assert forall|a: int| db::is_sector(geo, a) implies image::sector_at(
            m1.bytes,
            geo,
            a,
            #[trigger] d[a],
        ) by {
            ring::lemma_dist(geo, o, a);
        }
        if exists|a: int|
            db::is_sector(geo, a) && ring::dist(geo, o, a) >= t && (
            #[trigger] model::sector_head(m, a)).check_ok {
            let g = choose|a: int|
                db::is_sector(geo, a) && ring::dist(geo, o, a) >= t && (
                #[trigger] model::sector_head(m, a)).check_ok;
            ring::lemma_ahead(geo, o, t, g);
            ring::lemma_dist(geo, o, g);
        }
        if forall|a: int|
            db::is_sector(geo, a) && ring::dist(geo, o, a) >= t ==> !(
            #[trigger] model::sector_head(m, a)).check_ok {
            assert(!model::sector_head(m, at).check_ok);
        }
    }
}

/// What opening makes of a medium whose sectors are in order or have bad headers: where
/// not all are bad, those with bad headers are formatted, and at most collecting garbage is
/// resumed.
pub proof fn lemma_open_patched(
    m: Medium,
    geo: Geo,
    d: Map<int, Sect>,
    defaults: Seq<(Seq<u8>, Seq<u8>)>,
) -> (d1: Map<int, Sect>)
    requires
        model::geo_ok(geo),
        m.budget is None,
        m.clears,
        db::whole_sectors(geo, m.erases),
        m.flushed.len() == m.bytes.len(),
        geo.max <= m.bytes.len() <= 0xFFFF_FFFF,
        patched(m, geo, d),
        exists|a: int| db::is_sector(geo, a) && (#[trigger] model::sector_head(m, a)).check_ok,
        gc::unique(geo, d),
        gc::at_rest(geo, d),
        lookup::has_empty(geo, d),
    ensures
        ({
            let (st1, r) = model::open_db(m, geo, defaults, false);
            &&& r is Ok
            &&& st1.ready
            &&& st1.geo == geo
            &&& laws::fair(st1, d1)
            &&& gc::same_live(geo, d, d1)
            &&& gc::uncollected(geo, d) ==> d1 == d
        }),
{
    reveal(model::load);
    ring::lemma_first(geo, 0);
    lemma_oldest(m, geo, d, 0, SectorStoreStatus::Unused, 0);
    let oldest = model::oldest_from(m, geo, 0, 0, SectorStoreStatus::Unused, 0);
    ring::lemma_first(geo, oldest);
    lemma_repair(m, geo, d, oldest, 0, 0);
    let (m1, n) = model::check_headers(m, geo, false, oldest, 0, 0);
    assert(geo.sec * n < geo.max) by {
        let g = choose|a: int|
            db::is_sector(geo, a) && (#[trigger] model::sector_head(m, a)).check_ok;
        ring::lemma_dist(geo, oldest, g);
        assert(model::sector_head(m, g).check_ok);
    }
    db::lemma_geo(geo);
    vstd::arithmetic::div_mod::lemma_fundamental_div_mod(geo.max, geo.sec);
    assert(n != geo.max / geo.sec);
    let st1 = KvState {
        m: m1,
        geo,
        oldest,
        ready: false,
        fixed: false,
        gc_request: false,
        recovering: true,
        defaults,
    };
    assert(laws::fair(st1, d));
    lemma_resumes(st1, d)
}

/// Opening a medium without a single sector header: it is formatted, and the names that
/// can be looked up are those of the defaults, each with its value. All records are sound, and
/// without defaults every sector is empty.
pub proof fn open_on_garbage(m: Medium, geo: Geo, defaults: Seq<(Seq<u8>, Seq<u8>)>) -> (d1: Map<
    int,
    Sect,
>)
    requires
        model::geo_ok(geo),
        m.budget is None,
        m.clears,
        db::whole_sectors(geo, m.erases),
        m.flushed.len() == m.bytes.len(),
        geo.max <= m.bytes.len() <= 0xFFFF_FFFF,
        forall|a: int| db::is_sector(geo, a) ==> !(#[trigger] model::sector_head(m, a)).check_ok,
        model::defaults_ok(defaults),
        storable(geo, defaults),
    ensures
        ({
            let (st1, r) = model::open_db(m, geo, defaults, false);
            &&& r is Ok
            &&& st1.ready
            &&& st1.geo == geo
            &&& st1.defaults == defaults
            &&& laws::fair(st1, d1)
            &&& tidy(geo, d1)
            &&& gc::accounted(geo, d1)
            &&& defaults.len() == 0 ==> d1 == blank_image() && lookup::has_two_empty(geo, d1)
            &&& forall|i: int|
                0 <= i < defaults.len() ==> model::lookup(st1, (#[trigger] defaults[i]).0)
                    == Some(defaults[i].1)
            &&& forall|k: Seq<u8>|
                (forall|i: int| 0 <= i < defaults.len() ==> (#[trigger] defaults[i]).0 != k)
                    ==> (#[trigger] model::lookup(st1, k)) is None
        }),
{
    reveal(model::load);
    let d = blank_image();
    assert(patched(m, geo, d));
    ring::lemma_first(geo, 0);
    lemma_oldest(m, geo, d, 0, SectorStoreStatus::Unused, 0);
    let oldest = model::oldest_from(m, geo, 0, 0, SectorStoreStatus::Unused, 0);
    ring::lemma_first(geo, oldest);
    lemma_repair(m, geo, d, oldest, 0, 0);
    let (m1, n) = model::check_headers(m, geo, false, oldest, 0, 0);
    assert(geo.sec * n == geo.max);
    db::lemma_geo(geo);
    assert(n == geo.max / geo.sec) by {
        vstd::arithmetic::div_mod::lemma_div_multiples_vanish(n, geo.sec);
        assert(geo.sec * n == n * geo.sec) by (nonlinear_arith);
    }
    let st1 = KvState {
        m: m1,
        geo,
        oldest,
        ready: false,
        fixed: false,
        gc_request: false,
        recovering: true,
        defaults,
    };
    let d1 = lemma_reset(st1);
    let st2 = model::set_defaults(st1).0;
    lemma_finish(st2, d1);
    let (st3, r) = model::open_db(m, geo, defaults, false);
    lemma_defaults_lookup(st3, d1);
    d1
}

/// A database that may not be formatted is not opened where a header is bad and the other
/// sectors are in order, and its medium is left alone.
pub proof fn fixed_refuses_bad_headers(
    m: Medium,
    geo: Geo,
    d: Map<int, Sect>,
    defaults: Seq<(Seq<u8>, Seq<u8>)>,
)
    requires
        model::geo_ok(geo),
        patched(m, geo, d),
        some_bad(m, geo),
    ensures
        ({
            let (st1, r) = model::open_db(m, geo, defaults, true);
            &&& r == Err::<(), FdbError>(FdbError::ReadErr)
            &&& st1.m == m
            &&& !st1.ready
        }),
{
    reveal(model::load);
    ring::lemma_first(geo, 0);
    lemma_oldest(m, geo, d, 0, SectorStoreStatus::Unused, 0);
    let oldest = model::oldest_from(m, geo, 0, 0, SectorStoreStatus::Unused, 0);
    ring::lemma_first(geo, oldest);
    let b = choose|a: int|
        db::is_sector(geo, a) && !(#[trigger] model::sector_head(m, a)).check_ok;
    ring::lemma_dist(geo, oldest, b);
    lemma_refuse(m, geo, d, oldest, 0, b);
}

proof fn lemma_refuse(m: Medium, geo: Geo, d: Map<int, Sect>, o: int, t: int, b: int)
    requires
        patched(m, geo, d),
        ring::on_walk(geo, o, t),
        db::is_sector(geo, b),
        !model::sector_head(m, b).check_ok,
        ring::dist(geo, o, b) >= t,
    ensures
        model::check_headers(m, geo, true, ring::at(geo, o, t), t, 0) == (m, 1int),
    decreases geo.max - t,
{
    let at = ring::at(geo, o, t);
    ring::lemma_walk(geo, o, t);
    lemma_any_head(m, geo, d, at);
    let s = model::sector_head(m, at);
    lookup::lemma_next(geo, o, t, s);
    if s.check_ok {
        ring::lemma_ahead(geo, o, t, b);
        ring::lemma_dist(geo, o, b);
        lemma_refuse(m, geo, d, o, t + geo.sec, b);
    }
}

/// The image `d` of a database of geometry `geo`, with fresh sectors behind it.
pub open spec fn extended(geo: Geo, d: Map<int, Sect>) -> Map<int, Sect> {
    Map::new(
        |a: int| true,
        |a: int|
            if a < geo.max {
                d[a]
            } else {
                change::fresh()
            },
    )
}

/// Opening a database with more sectors than it was closed with, none of which has a
/// sector header yet: every name reads as before.
pub proof fn growing_keeps_contents(
    st: KvState,
    d: Map<int, Sect>,
    m: Medium,
    max: int,
    defaults: Seq<(Seq<u8>, Seq<u8>)>,
) -> (d2: Map<int, Sect>)
    requires
        laws::fair(st, d),
        iter::all_sound(st.geo, d),
        m.budget is None,
        m.clears,
        db::whole_sectors(Geo { max, ..st.geo }, m.erases),
        m.flushed.len() == m.bytes.len(),
        st.geo.max < max <= m.bytes.len() <= 0xFFFF_FFFF,
        model::geo_ok(Geo { max, ..st.geo }),
        m.bytes.subrange(0, st.geo.max) == st.m.bytes.subrange(0, st.geo.max),
        forall|a: int|
            st.geo.max <= a && db::is_sector(Geo { max, ..st.geo }, a) ==> !(
            #[trigger] model::sector_head(m, a)).check_ok,
    ensures
        ({
            let (st1, r) = model::open_db(m, Geo { max, ..st.geo }, defaults, false);
            &&& r is Ok
            &&& st1.ready
            &&& laws::fair(st1, d2)
            &&& gc::uncollected(st.geo, d) ==> d2 == extended(st.geo, d)
            &&& forall|k: Seq<u8>| #[trigger]
                    model::lookup(st1, k) == model::lookup(st, k)
        }),
{
    let geo = st.geo;
    let geo1 = Geo { max, ..geo };
    let d1 = extended(geo, d);
    db::lemma_geo(geo);
    db::lemma_geo(geo1);
    assert forall|a: int| db::is_sector(geo1, a) && a < geo.max implies #[trigger] db::is_sector(
        geo,
        a,
    ) && d1[a] == d[a] by {
        db::lemma_aligned(geo, a);
    }
    assert forall|a: int| #[trigger] db::is_sector(geo, a) implies db::is_sector(geo1, a) by {}
    assert forall|a: int| db::is_sector(geo1, a) implies image::sector_at(
        m.bytes,
        geo1,
        a,
        #[trigger] d1[a],
    ) || (!model::sector_head(m, a).check_ok && d1[a] == change::fresh()) by {
        if a < geo.max {
            assert(db::is_sector(geo, a));
            assert(image::sector_at(st.m.bytes, geo, a, d[a]));
            lemma_grown_sector(st.m.bytes, m.bytes, geo, geo1, a, d[a]);
        } else {
            assert(!model::sector_head(m, a).check_ok);
        }
    }
    assert forall|a: int, j: int| #[trigger] gc::live(geo1, d1, a, j) <==> gc::live(geo, d, a, j) by {
        if gc::live(geo1, d1, a, j) && a < geo.max {
            assert(db::is_sector(geo, a));
        }
        if gc::live(geo, d, a, j) {
            assert(db::is_sector(geo1, a));
        }
    }
    assert forall|a: int, j: int| #[trigger] gc::live(geo1, d1, a, j) implies d1[a] == d[a] by {}
    assert forall|name: Seq<u8>, v: Seq<u8>| #[trigger]
        gc::has_live(geo1, d1, name, v) <==> gc::has_live(geo, d, name, v) by {
        if gc::has_live(geo1, d1, name, v) {
            let (a, j) = choose|a: int, j: int| gc::live_as(geo1, d1, a, j, name, v);
            assert(gc::live(geo1, d1, a, j));
            assert(gc::live_as(geo, d, a, j, name, v));
        }
        if gc::has_live(geo, d, name, v) {
            let (a, j) = choose|a: int, j: int| gc::live_as(geo, d, a, j, name, v);
            assert(gc::live(geo1, d1, a, j));
            assert(gc::live_as(geo1, d1, a, j, name, v));
        }
    }
    assert(gc::unique(geo1, d1)) by {
        assert forall|a: int, j: int, b: int, k: int|
            #![trigger gc::live(geo1, d1, a, j), gc::live(geo1, d1, b, k)]
            gc::live(geo1, d1, a, j) && gc::live(geo1, d1, b, k) && d1[a].recs[j].name
                == d1[b].recs[k].name implies a == b && j
            == k by {
            assert(gc::live(geo, d, a, j) && gc::live(geo, d, b, k));
        }
    }
    assert(gc::at_rest(geo1, d1)) by {
        assert forall|a: int, j: int|
            db::is_sector(geo1, a) && 0 <= j < d1[a].recs.len() implies (
        #[trigger] d1[a].recs[j]).status != KvStatus::PreDelete && d1[a].recs[j].status
            != KvStatus::PreWrite by {
            assert(db::is_sector(geo, a));
            assert(d[a].recs[j].status != KvStatus::PreDelete);
        }
    }
    if gc::uncollected(geo, d) {
        assert forall|a: int| db::is_sector(geo1, a) implies (#[trigger] d1[a]).dirty
            != SectorDirtyStatus::Gc by {
            if a < geo.max {
                assert(db::is_sector(geo, a));
                assert(d[a].dirty != SectorDirtyStatus::Gc);
            }
        }
    }
    assert(lookup::has_empty(geo1, d1)) by {
        let e = choose|x: int|
            db::is_sector(geo, x) && (#[trigger] d[x]).store == SectorStoreStatus::Empty;
        assert(d1[e].store == SectorStoreStatus::Empty);
    }
    assert(model::sector_head(m, 0).check_ok) by {
        ring::lemma_first(geo, 0);
        assert(db::is_sector(geo, 0));
        assert(image::sector_at(st.m.bytes, geo, 0, d[0]));
        lemma_grown_sector(st.m.bytes, m.bytes, geo, geo1, 0, d[0]);
        image::lemma_one_head(m, geo1, 0, d[0]);
        assert(db::is_sector(geo1, 0));
    }
    let d2 = lemma_open_patched(m, geo1, d1, defaults);
    let st1 = model::open_db(m, geo1, defaults, false).0;
    assert forall|k: Seq<u8>| #[trigger]
        model::lookup(st1, k) == model::lookup(st, k) by {
        lemma_grown_lookup(st, d, st1, d1, d2, k);
    }
    d2
}

/// A name reads as before in a larger database with the same live records.
proof fn lemma_grown_lookup(
    st: KvState,
    d: Map<int, Sect>,
    st1: KvState,
    d1: Map<int, Sect>,
    d2: Map<int, Sect>,
    k: Seq<u8>,
)
    requires
        laws::fair(st, d),
        laws::fair(st1, d2),
        forall|name: Seq<u8>, v: Seq<u8>| #[trigger]
            gc::has_live(st1.geo, d1, name, v) <==> gc::has_live(st.geo, d, name, v),
        gc::same_live(st1.geo, d1, d2),
    ensures
        model::lookup(st1, k) == model::lookup(st, k),
{
    assert forall|name: Seq<u8>, v: Seq<u8>| #[trigger]
        gc::has_live(st1.geo, d2, name, v) <==> gc::has_live(st.geo, d, name, v) by {
        assert(gc::has_live(st1.geo, d1, name, v) <==> gc::has_live(st.geo, d, name, v));
    }
    laws::lemma_same_lookup(st, d, st1, d2, k);
}

/// A sector of sound records is one for a larger database too.
proof fn lemma_grown_sector(b: Seq<u8>, b1: Seq<u8>, geo: Geo, geo1: Geo, a: int, s: Sect)
    requires
        geo.sec >= 16,
        geo1.sec == geo.sec,
        image::sector_at(b, geo, a, s),
        0 <= a,
        a + geo.sec <= geo.max <= b.len(),
        geo.max <= b1.len(),
        b1.subrange(0, geo.max) == b.subrange(0, geo.max),
        forall|j: int| 0 <= j < s.recs.len() ==> (#[trigger] s.recs[j]).sound,
    ensures
        image::sector_at(b1, geo1, a, s),
{
    image::lemma_open_sector(b, geo, a, s);
    let c = b.subrange(0, geo.max);
    assert forall|j: int| 0 <= j < geo.max implies #[trigger] b1[j] == b[j] by {
        assert(b1.subrange(0, geo.max)[j] == c[j]);
    }
    assert(codec::le32(b1, a + 4) == codec::le32(b, a + 4));
    assert(codec::le32(b1, a + 8) == codec::le32(b, a + 8));
    assert forall|i: int| 0 <= i < s.recs.len() implies image::rec_at(
        b1,
        geo1,
        image::place(a, s.recs, i),
        #[trigger] s.recs[i],
    ) by {
        image::lemma_place(b, geo, a, s, i);
        lemma_grown_record(b, b1, geo.max, image::place(a, s.recs, i), s.recs[i]);
    }
    assert(b1[a] == b[a] && b1[a + 1] == b[a + 1]);
    assert forall|j: int| a + 16 + image::span(s.recs) <= j < a + geo.sec implies b1[j]
        == 0xFF by {
        image::lemma_reach(s.recs, 0, s.recs.len() as int);
        assert(b1[j] == b[j]);
    }
    reveal(image::sector_at);
}

proof fn lemma_grown_record(b: Seq<u8>, b1: Seq<u8>, max: int, p: int, r: Rec)
    requires
        r.sound,
        image::sound_at(b, p, r),
        p + image::size(r) <= max <= b.len(),
        max <= b1.len(),
        forall|j: int| 0 <= j < max ==> #[trigger] b1[j] == b[j],
    ensures
        image::sound_at(b1, p, r),
{
    let nl = r.name.len() as int;
    assert(b1.subrange(p + 4, p + 24) =~= b.subrange(p + 4, p + 24));
    assert(b1.subrange(p + 24, p + 24 + nl) =~= b.subrange(p + 24, p + 24 + nl));
    assert(b1.subrange(p + 24 + nl, p + image::body(r)) =~= b.subrange(
        p + 24 + nl,
        p + image::body(r),
    ));
}

} // verus!
