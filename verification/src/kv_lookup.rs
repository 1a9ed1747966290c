//! Finding records in an image of the key-value database: the walk over the ring of
//! sectors, looking up names, and looking for room.
use vstd::prelude::*;

use crate::db;
use crate::db::Geo;
use crate::def::{KvStatus, SectorDirtyStatus, SectorStoreStatus, KV_NAME_MAX};
use crate::flash;
use crate::kv_image as image;
use crate::kv_image::{Rec, Sect};
use crate::kv_model as model;
use crate::kv_model::{KvState, Node, SecInfo, SECTOR_NOT_COMBINED};
use crate::ring;
use crate::storage::Medium;

verus! {

/// The next sector of a walk.
pub proof fn lemma_next(geo: Geo, o: int, t: int, info: SecInfo)
    requires
        ring::on_walk(geo, o, t),
        info.at == ring::at(geo, o, t),
        info.combined == SECTOR_NOT_COMBINED,
    ensures
        model::next_sector(geo, info, t + geo.sec) == (if t + geo.sec < geo.max {
            Some(ring::at(geo, o, t + geo.sec))
        } else {
            None
        }),
{
    ring::lemma_walk(geo, o, t);
    if t + geo.sec < geo.max {
        ring::lemma_walk(geo, o, t + geo.sec);
    }
}

// ------------------------------------------------------------------ looking up names

/// Whether `r` is a live record that reads as one with the name `key`.
pub open spec fn matches(r: Rec, key: Seq<u8>) -> bool {
    r.sound && r.status == KvStatus::Write && r.name == key
}

/// Whether the `j`th record of the sector at `a` is a live one with the name `key`.
pub open spec fn hit(geo: Geo, d: Map<int, Sect>, a: int, j: int, key: Seq<u8>) -> bool {
    db::is_sector(geo, a) && 0 <= j < d[a].recs.len() && matches(d[a].recs[j], key)
}

/// Whether the node object shows the `j`th record of the sector at `a`.
pub open spec fn shown(d: Map<int, Sect>, a: int, j: int, n: Node) -> bool {
    image::shows(n, image::place(a, d[a].recs, j), d[a].recs[j])
}

proof fn lemma_live_matches(n: Node, a: int, r: Rec, key: Seq<u8>)
    requires
        r.name.len() <= KV_NAME_MAX,
        r.sound,
        image::shows(n, a, r),
    ensures
        model::is_live(n, key) == matches(r, key),
{
}

proof fn lemma_find_in(
    m: Medium,
    geo: Geo,
    d: Map<int, Sect>,
    at: int,
    info: SecInfo,
    i: int,
    n: Node,
    key: Seq<u8>,
)
    requires
        image::holds_image(m, geo, d),
        db::is_sector(geo, at),
        info.at == at,
        info.store == d[at].store,
        0 <= i < d[at].recs.len(),
        n.at == image::place(at, d[at].recs, i),
        n.name.len() == KV_NAME_MAX,
    ensures
        ({
            let (m1, n1, found) = model::find_in_sector(m, geo, info, n, key);
            &&& image::read_only(m, m1, geo, d)
            &&& n1.name.len() == KV_NAME_MAX
            &&& found ==> exists|j: int|
                i <= j && #[trigger] hit(geo, d, at, j, key) && shown(d, at, j, n1)
            &&& !found ==> forall|j: int| i <= j ==> !#[trigger] hit(geo, d, at, j, key)
        }),
    decreases d[at].recs.len() - i,
{
    let recs = d[at].recs;
    image::lemma_step(m, geo, d, at, info, i, n);
    let m1 = model::after_read(m, geo, n.at);
    let n1 = model::read_node(m, geo, n);
    assert(image::sector_at(m.bytes, geo, at, d[at]));
    image::lemma_place(m.bytes, geo, at, d[at], i);
    if recs[i].sound {
        lemma_live_matches(n1, n.at, recs[i], key);
    }
    assert(model::is_live(n1, key) == hit(geo, d, at, i, key));
    if model::is_live(n1, key) {
        assert(hit(geo, d, at, i, key) && shown(d, at, i, n1));
    } else if i + 1 < recs.len() {
        let a = image::place(at, recs, i + 1);
        lemma_find_in(m1, geo, d, at, info, i + 1, Node { at: a, ..n1 }, key);
        assert forall|j: int| i <= j && !(i + 1 <= j) implies !#[trigger] hit(
            geo,
            d,
            at,
            j,
            key,
        ) by {
            assert(j == i);
        }
    } else {
        assert forall|j: int| i <= j implies !#[trigger] hit(geo, d, at, j, key) by {
            if j != i {
                assert(j >= recs.len());
            }
        }
    }
}

/// Looking for a name from a sector of the walk on: a live record with that name is
/// found if there is one, and the medium is only read.
#[verifier::rlimit(40)]
pub proof fn lemma_find_from(
    m: Medium,
    geo: Geo,
    d: Map<int, Sect>,
    o: int,
    t: int,
    n: Node,
    key: Seq<u8>,
)
    requires
        image::holds_image(m, geo, d),
        ring::on_walk(geo, o, t),
        n.name.len() == KV_NAME_MAX,
    ensures
        ({
            let (m1, n1, found) = model::find_from(m, geo, key, ring::at(geo, o, t), t, n);
            &&& image::read_only(m, m1, geo, d)
            &&& found ==> exists|a: int, j: int| #[trigger]
                hit(geo, d, a, j, key) && shown(d, a, j, n1)
            &&& !found ==> forall|a: int, j: int|
                ring::dist(geo, o, a) >= t ==> !#[trigger] hit(geo, d, a, j, key)
        }),
    decreases geo.max - t,
{
    let at = ring::at(geo, o, t);
    ring::lemma_walk(geo, o, t);
    image::lemma_head(m, geo, d, at);
    let s = model::sector_head(m, at);
    assert(image::sector_at(m.bytes, geo, at, d[at]));
    image::lemma_open_sector(m.bytes, geo, at, d[at]);
    let recs = d[at].recs;
    let (m1, n1, found) = if model::has_nodes(s) {
        model::find_in_sector(m, geo, s, Node { at: at + 16, ..n }, key)
    } else {
        (m, n, false)
    };
    if recs.len() > 0 {
        assert(image::place(at, recs, 0) == at + 16);
        lemma_find_in(m, geo, d, at, s, 0, Node { at: at + 16, ..n }, key);
    } else {
        assert(!model::has_nodes(s));
        assert forall|j: int| !#[trigger] hit(geo, d, at, j, key) by {}
    }
    lemma_next(geo, o, t, s);
    if !found {
        assert forall|j: int| !#[trigger] hit(geo, d, at, j, key) by {
            if j < 0 {
            }
        }
        if t + geo.sec < geo.max {
            lemma_find_from(m1, geo, d, o, t + geo.sec, n1, key);
        }
        let out = model::find_from(m, geo, key, at, t, n);
        if !out.2 {
            assert forall|a: int, j: int| ring::dist(geo, o, a) >= t implies !#[trigger] hit(
                geo,
                d,
                a,
                j,
                key,
            ) by {
                if hit(geo, d, a, j, key) {
                    ring::lemma_ahead(geo, o, t, a);
                    if a != at {
                        ring::lemma_dist(geo, o, a);
                        assert(ring::dist(geo, o, a) < geo.max);
                    }
                }
            }
        }
    }
}

/// Looking for a name in the whole database.
pub proof fn lemma_find(st: KvState, d: Map<int, Sect>, key: Seq<u8>)
    requires
        image::holds_image(st.m, st.geo, d),
        db::is_sector(st.geo, st.oldest),
    ensures
        ({
            let (m1, n, found) = model::find(st, key);
            &&& image::read_only(st.m, m1, st.geo, d)
            &&& found ==> exists|a: int, j: int| #[trigger]
                hit(st.geo, d, a, j, key) && shown(d, a, j, n)
            &&& !found ==> forall|a: int, j: int| !#[trigger] hit(st.geo, d, a, j, key)
        }),
{
    reveal(model::find);
    db::lemma_geo(st.geo);
    vstd::arithmetic::div_mod::lemma_small_mod(0, st.geo.sec as nat);
    assert(ring::on_walk(st.geo, st.oldest, 0));
    ring::lemma_walk(st.geo, st.oldest, 0);
    lemma_find_from(st.m, st.geo, d, st.oldest, 0, model::blank_node(), key);
    let (m1, n, found) = model::find(st, key);
    if !found {
        assert forall|a: int, j: int| !#[trigger] hit(st.geo, d, a, j, key) by {
            if hit(st.geo, d, a, j, key) {
                assert(ring::dist(st.geo, st.oldest, a) >= 0);
            }
        }
    }
}

/// The value that a node object shows is the record's.
pub proof fn lemma_shown_value(m: Medium, geo: Geo, d: Map<int, Sect>, a: int, j: int, n: Node)
    requires
        image::holds_image(m, geo, d),
        db::is_sector(geo, a),
        0 <= j < d[a].recs.len(),
        d[a].recs[j].sound,
        shown(d, a, j, n),
    ensures
        model::value_of(m, n) == d[a].recs[j].value,
{
    let r = d[a].recs[j];
    assert(image::sector_at(m.bytes, geo, a, d[a]));
    image::lemma_place(m.bytes, geo, a, d[a], j);
    let at = image::place(a, d[a].recs, j);
    let nl = r.name.len() as int;
    assert(model::value_of(m, n) =~= m.bytes.subrange(at + 24 + nl, at + image::body(r)));
}

// ------------------------------------------------------------------ looking for room

/// What is known of a sector that is empty or in use once its records were read.
pub open spec fn full_info(geo: Geo, at: int, s: Sect) -> SecInfo {
    SecInfo {
        check_ok: true,
        store: s.store,
        dirty: s.dirty,
        at,
        combined: SECTOR_NOT_COMBINED as int,
        remain: geo.sec - 16 - image::span(s.recs),
        empty: at + 16 + image::span(s.recs),
    }
}

proof fn lemma_tally(
    m: Medium,
    geo: Geo,
    d: Map<int, Sect>,
    at: int,
    s: SecInfo,
    i: int,
    n: Node,
)
    requires
        image::holds_image(m, geo, d),
        db::is_sector(geo, at),
        s.at == at,
        s.store == d[at].store,
        0 <= i < d[at].recs.len(),
        n.at == image::place(at, d[at].recs, i),
        n.name.len() == KV_NAME_MAX,
        forall|k: int|
            0 <= k < d[at].recs.len() && !(#[trigger] d[at].recs[k]).sound ==> d[at].recs[k].status
                == KvStatus::ErrHdr || d[at].recs[k].status == KvStatus::PreWrite
                || d[at].recs[k].status == KvStatus::Unused,
    ensures
        ({
            let (m1, s1, r) = model::tally(m, geo, s, n);
            let end = at + 16 + image::span(d[at].recs) - d[at].recs.last().pad;
            &&& image::read_only(m, m1, geo, d)
            &&& r is Ok
            &&& s1 == (SecInfo { empty: end, remain: at + geo.sec - end, ..s })
        }),
    decreases d[at].recs.len() - i,
{
    let recs = d[at].recs;
    let m1 = model::after_read(m, geo, n.at);
    let n1 = model::read_node(m, geo, n);
    let end = n1.at + n1.len;
    let s1 = SecInfo { empty: model::sat(end), remain: s.at + geo.sec - end, ..s };
    image::lemma_step(m, geo, d, at, s1, i, n);
    assert(image::reach(recs, i + 1) == image::reach(recs, i) + image::size(recs[i]));
    assert(image::sector_at(m.bytes, geo, at, d[at]));
    image::lemma_place(m.bytes, geo, at, d[at], i);
    assert(recs[i].pad >= 0);
    if i + 1 < recs.len() {
        let a = image::place(at, recs, i + 1);
        lemma_tally(m1, geo, d, at, s1, i + 1, Node { at: a, ..n1 });
    }
}

/// The statuses of torn records.
proof fn lemma_torn_status(m: Medium, geo: Geo, d: Map<int, Sect>, at: int)
    requires
        image::holds_image(m, geo, d),
        db::is_sector(geo, at),
    ensures
        forall|k: int|
            0 <= k < d[at].recs.len() && !(#[trigger] d[at].recs[k]).sound ==> d[at].recs[k].status
                == KvStatus::ErrHdr || d[at].recs[k].status == KvStatus::PreWrite
                || d[at].recs[k].status == KvStatus::Unused,
{
    assert(image::sector_at(m.bytes, geo, at, d[at]));
    assert forall|k: int|
        0 <= k < d[at].recs.len() && !(#[trigger] d[at].recs[k]).sound implies d[at].recs[k].status
        == KvStatus::ErrHdr || d[at].recs[k].status == KvStatus::PreWrite || d[at].recs[k].status
        == KvStatus::Unused by {
        image::lemma_place(m.bytes, geo, at, d[at], k);
    }
}

/// Reading a sector with its records.
pub proof fn lemma_full(m: Medium, geo: Geo, d: Map<int, Sect>, at: int)
    requires
        image::holds_image(m, geo, d),
        db::is_sector(geo, at),
    ensures
        ({
            let (m1, info, r) = model::sector_full(m, geo, at);
            &&& image::read_only(m, m1, geo, d)
            &&& image::heads(info, at, d[at])
            &&& d[at].store != SectorStoreStatus::Full ==> r is Ok && info == full_info(
                geo,
                at,
                d[at],
            )
            &&& d[at].store == SectorStoreStatus::Full ==> info.remain == 0
        }),
{
    reveal(model::sector_head);
    image::lemma_head(m, geo, d, at);
    let h = model::sector_head(m, at);
    let recs = d[at].recs;
    assert(image::sector_at(m.bytes, geo, at, d[at]));
    image::lemma_open_sector(m.bytes, geo, at, d[at]);
    if d[at].store == SectorStoreStatus::Using {
        let s0 = SecInfo { empty: at + 16, remain: geo.sec - 16, ..h };
        let n0 = Node { at: at + 16, ..model::blank_node() };
        assert(image::place(at, recs, 0) == at + 16);
        lemma_torn_status(m, geo, d, at);
        lemma_tally(m, geo, d, at, s0, 0, n0);
        let (m1, s1, r) = model::tally(m, geo, s0, n0);
        assert(image::sector_at(m1.bytes, geo, at, d[at]));
        image::lemma_open_sector(m1.bytes, geo, at, d[at]);
        let from = at + 16 + image::span(recs);
        assert forall|j: int| from <= j < at + geo.sec implies m1.bytes[j] == 0xFF by {}
        image::lemma_place(m1.bytes, geo, at, d[at], recs.len() - 1);
        let low = from - recs.last().pad;
        flash::lemma_seen_tail(m1, low, at + geo.sec);
        flash::erased_tail_is_maximal(m1.bytes, low, at + geo.sec);
        let ff = flash::erased_tail(m1.bytes, low, at + geo.sec);
        if ff > from {
            assert(m1.bytes[ff - 1] == 0xFF);
        }
        if recs.last().pad > 0 {
            image::lemma_status_bytes();
            assert(m1.bytes[from - 1] == 0x7F);
        }
        assert(ff == from);
    } else if d[at].store == SectorStoreStatus::Empty {
        assert(image::span(recs) == 0);
    }
}

/// Whether two different sectors that are still to come have the store status `w`.
pub open spec fn two_ahead(geo: Geo, d: Map<int, Sect>, o: int, t: int, w: SectorStoreStatus) -> bool {
    exists|a: int, b: int|
        #![trigger d[a], d[b]]
        a != b && db::is_sector(geo, a) && db::is_sector(geo, b) && ring::dist(geo, o, a) >= t && ring::dist(
            geo,
            o,
            b,
        ) >= t && d[a].store == w && d[b].store == w
}

/// Whether a sector that is still to come has the store status `w`.
pub open spec fn one_ahead(geo: Geo, d: Map<int, Sect>, o: int, t: int, w: SectorStoreStatus) -> bool {
    exists|a: int|
        db::is_sector(geo, a) && ring::dist(geo, o, a) >= t && (#[trigger] d[a]).store == w
}

pub proof fn lemma_one_step(geo: Geo, d: Map<int, Sect>, o: int, t: int, w: SectorStoreStatus)
    requires
        ring::on_walk(geo, o, t),
    ensures
        one_ahead(geo, d, o, t, w) <==> (d[ring::at(geo, o, t)].store == w || (t + geo.sec < geo.max
            && one_ahead(geo, d, o, t + geo.sec, w))),
{
    let at = ring::at(geo, o, t);
    ring::lemma_walk(geo, o, t);
    if one_ahead(geo, d, o, t, w) {
        let a = choose|a: int|
            db::is_sector(geo, a) && ring::dist(geo, o, a) >= t && (#[trigger] d[a]).store == w;
        ring::lemma_ahead(geo, o, t, a);
        if a != at {
            ring::lemma_dist(geo, o, a);
            assert(d[a].store == w);
        }
    }
    if d[at].store == w {
        assert(d[at].store == w && ring::dist(geo, o, at) >= t);
    }
    if t + geo.sec < geo.max && one_ahead(geo, d, o, t + geo.sec, w) {
        let a = choose|a: int|
            db::is_sector(geo, a) && ring::dist(geo, o, a) >= t + geo.sec && (#[trigger] d[a]).store
                == w;
        assert(d[a].store == w && ring::dist(geo, o, a) >= t);
    }
}

pub proof fn lemma_two_step(geo: Geo, d: Map<int, Sect>, o: int, t: int, w: SectorStoreStatus)
    requires
        ring::on_walk(geo, o, t),
    ensures
        two_ahead(geo, d, o, t, w) <==> (t + geo.sec < geo.max && ((d[ring::at(geo, o, t)].store == w
            && one_ahead(geo, d, o, t + geo.sec, w)) || two_ahead(geo, d, o, t + geo.sec, w))),
{
    let at = ring::at(geo, o, t);
    ring::lemma_walk(geo, o, t);
    if two_ahead(geo, d, o, t, w) {
        let (a, b) = choose|a: int, b: int|
            #![trigger d[a], d[b]]
            a != b && db::is_sector(geo, a) && db::is_sector(geo, b) && ring::dist(geo, o, a) >= t
                && ring::dist(geo, o, b) >= t && d[a].store == w && d[b].store == w;
        ring::lemma_ahead(geo, o, t, a);
        ring::lemma_ahead(geo, o, t, b);
        ring::lemma_dist(geo, o, a);
        ring::lemma_dist(geo, o, b);
        if a == at {
            assert(d[b].store == w && ring::dist(geo, o, b) >= t + geo.sec);
        } else if b == at {
            assert(d[a].store == w && ring::dist(geo, o, a) >= t + geo.sec);
        } else {
            assert(d[a].store == w && d[b].store == w);
        }
    }
    if t + geo.sec < geo.max {
        if d[at].store == w && one_ahead(geo, d, o, t + geo.sec, w) {
            let b = choose|a: int|
                db::is_sector(geo, a) && ring::dist(geo, o, a) >= t + geo.sec && (#[trigger] d[a]).store
                    == w;
            assert(d[at].store == w && d[b].store == w && at != b && ring::dist(geo, o, at) >= t);
        }
        if two_ahead(geo, d, o, t + geo.sec, w) {
            let (a, b) = choose|a: int, b: int|
                #![trigger d[a], d[b]]
                a != b && db::is_sector(geo, a) && db::is_sector(geo, b) && ring::dist(geo, o, a) >= t
                    + geo.sec && ring::dist(geo, o, b) >= t + geo.sec && d[a].store == w && d[b].store
                    == w;
            assert(d[a].store == w && d[b].store == w && ring::dist(geo, o, a) >= t && ring::dist(geo, o, b)
                >= t);
        }
    }
}

/// Counting sectors.
pub proof fn lemma_count(m: Medium, geo: Geo, d: Map<int, Sect>, o: int, t: int)
    requires
        image::holds_image(m, geo, d),
        ring::on_walk(geo, o, t),
    ensures
        ({
            let (e, u) = model::count_sectors(m, geo, ring::at(geo, o, t), t);
            &&& e >= 0
            &&& u >= 0
            &&& e > 0 <==> one_ahead(geo, d, o, t, SectorStoreStatus::Empty)
            &&& e > 1 <==> two_ahead(geo, d, o, t, SectorStoreStatus::Empty)
            &&& u > 0 <==> one_ahead(geo, d, o, t, SectorStoreStatus::Using)
        }),
    decreases geo.max - t,
{
    let at = ring::at(geo, o, t);
    ring::lemma_walk(geo, o, t);
    image::lemma_head(m, geo, d, at);
    lemma_next(geo, o, t, model::sector_head(m, at));
    lemma_one_step(geo, d, o, t, SectorStoreStatus::Empty);
    lemma_one_step(geo, d, o, t, SectorStoreStatus::Using);
    lemma_two_step(geo, d, o, t, SectorStoreStatus::Empty);
    if t + geo.sec < geo.max {
        lemma_count(m, geo, d, o, t + geo.sec);
    }
}

/// Counting the empty sectors and remembering the last.
pub proof fn lemma_empties(
    m: Medium,
    geo: Geo,
    d: Map<int, Sect>,
    o: int,
    t: int,
    n: int,
    last: int,
)
    requires
        image::holds_image(m, geo, d),
        ring::on_walk(geo, o, t),
        db::is_sector(geo, last),
        n >= 0,
    ensures
        ({
            let (n1, last1) = model::empty_sectors(m, geo, ring::at(geo, o, t), t, n, last);
            &&& db::is_sector(geo, last1)
            &&& n1 >= n
            &&& d[last].store == SectorStoreStatus::Empty ==> d[last1].store
                == SectorStoreStatus::Empty
            &&& forall|a: int|
                db::is_sector(geo, a) && ring::dist(geo, o, a) >= t && (#[trigger] d[a]).store
                    == SectorStoreStatus::Empty ==> d[last1].store == SectorStoreStatus::Empty
            &&& n1 > n + 1 ==> exists|a: int, b: int|
                #![trigger d[a], d[b]]
                a != b && db::is_sector(geo, a) && db::is_sector(geo, b) && d[a].store
                    == SectorStoreStatus::Empty && d[b].store == SectorStoreStatus::Empty
                    && ring::dist(geo, o, a) >= t && ring::dist(geo, o, b) >= t
            &&& n1 > n ==> exists|a: int|
                db::is_sector(geo, a) && (#[trigger] d[a]).store == SectorStoreStatus::Empty
                    && ring::dist(geo, o, a) >= t
        }),
    decreases geo.max - t,
{
    let at = ring::at(geo, o, t);
    ring::lemma_walk(geo, o, t);
    image::lemma_head(m, geo, d, at);
    let s = model::sector_head(m, at);
    lemma_next(geo, o, t, s);
    let (n1, last1) = if s.store == SectorStoreStatus::Empty && s.check_ok {
        (n + 1, s.at)
    } else {
        (n, last)
    };
    if t + geo.sec < geo.max {
        lemma_empties(m, geo, d, o, t + geo.sec, n1, last1);
    }
    assert forall|a: int|
        db::is_sector(geo, a) && ring::dist(geo, o, a) >= t && (#[trigger] d[a]).store
            == SectorStoreStatus::Empty implies d[model::empty_sectors(m, geo, at, t, n, last).1].store
        == SectorStoreStatus::Empty by {
        ring::lemma_ahead(geo, o, t, a);
        ring::lemma_dist(geo, o, a);
    }
}

/// Whether the sector at `a` has the store status `w` and can take in `size` bytes.
pub open spec fn can_take(
    geo: Geo,
    d: Map<int, Sect>,
    a: int,
    w: SectorStoreStatus,
    size: int,
    gc_request: bool,
) -> bool {
    &&& db::is_sector(geo, a)
    &&& d[a].store == w
    &&& 16 + image::span(d[a].recs) + size + 88 < geo.sec
    &&& d[a].dirty == SectorDirtyStatus::False || (d[a].dirty == SectorDirtyStatus::True
        && !gc_request)
}

/// Whether the sector at `a` is the first that a walk from the sector `o` on comes to after `t`
/// bytes or more, of those with the store status `w` that can take in a record of `size` bytes.
pub open spec fn takes_first(
    geo: Geo,
    d: Map<int, Sect>,
    o: int,
    t: int,
    a: int,
    w: SectorStoreStatus,
    size: int,
    gc_request: bool,
) -> bool {
    &&& can_take(geo, d, a, w, size, gc_request)
    &&& ring::dist(geo, o, a) >= t
    &&& forall|b: int|
        t <= ring::dist(geo, o, b) < ring::dist(geo, o, a) ==> !#[trigger] can_take(
            geo,
            d,
            b,
            w,
            size,
            gc_request,
        )
}

/// Looking for a sector with room.
pub proof fn lemma_alloc(
    m: Medium,
    geo: Geo,
    d: Map<int, Sect>,
    o: int,
    t: int,
    gcr: bool,
    w: SectorStoreStatus,
    size: int,
)
    requires
        image::holds_image(m, geo, d),
        ring::on_walk(geo, o, t),
        w == SectorStoreStatus::Empty || w == SectorStoreStatus::Using,
    ensures
        ({
            let (m1, slot) = model::alloc_scan(m, geo, gcr, w, size, ring::at(geo, o, t), t);
            &&& image::read_only(m, m1, geo, d)
            &&& slot matches Some(s) ==> exists|a: int| #[trigger]
                can_take(geo, d, a, w, size, gcr) && s == full_info(geo, a, d[a])
            &&& slot is None ==> forall|a: int|
                ring::dist(geo, o, a) >= t ==> !#[trigger] can_take(geo, d, a, w, size, gcr)
            &&& slot matches Some(s) ==> takes_first(geo, d, o, t, s.at, w, size, gcr)
        }),
    decreases geo.max - t,
{
    let at = ring::at(geo, o, t);
    ring::lemma_walk(geo, o, t);
    image::lemma_head(m, geo, d, at);
    lemma_full(m, geo, d, at);
    let h = model::sector_head(m, at);
    let (m1, s) = if h.store == w {
        (model::sector_full(m, geo, at).0, model::sector_full(m, geo, at).1)
    } else {
        (m, h)
    };
    lemma_next(geo, o, t, s);
    if h.store == w && model::roomy(s, size, gcr) {
        assert(can_take(geo, d, at, w, size, gcr) && s == full_info(geo, at, d[at]));
        assert(takes_first(geo, d, o, t, at, w, size, gcr));
    } else {
        assert(!can_take(geo, d, at, w, size, gcr));
        if t + geo.sec < geo.max {
            lemma_alloc(m1, geo, d, o, t + geo.sec, gcr, w, size);
        }
        let (m2, slot) = model::alloc_scan(m, geo, gcr, w, size, at, t);
        if let Some(found) = slot {
            assert(takes_first(geo, d, o, t, found.at, w, size, gcr)) by {
                assert forall|b: int|
                    t <= ring::dist(geo, o, b) < ring::dist(geo, o, found.at) implies !#[trigger] can_take(
                    geo,
                    d,
                    b,
                    w,
                    size,
                    gcr,
                ) by {
                    if can_take(geo, d, b, w, size, gcr) {
                        ring::lemma_ahead(geo, o, t, b);
                    }
                }
            }
        }
        if slot is None {
            assert forall|a: int| ring::dist(geo, o, a) >= t implies !#[trigger] can_take(
                geo,
                d,
                a,
                w,
                size,
                gcr,
            ) by {
                if can_take(geo, d, a, w, size, gcr) {
                    ring::lemma_ahead(geo, o, t, a);
                    ring::lemma_dist(geo, o, a);
                }
            }
        }
    }
}

/// Whether some sector is empty.
pub open spec fn has_empty(geo: Geo, d: Map<int, Sect>) -> bool {
    exists|a: int| db::is_sector(geo, a) && (#[trigger] d[a]).store == SectorStoreStatus::Empty
}

/// Whether two different sectors are empty.
pub open spec fn has_two_empty(geo: Geo, d: Map<int, Sect>) -> bool {
    exists|a: int, b: int|
        #![trigger d[a], d[b]]
        a != b && db::is_sector(geo, a) && db::is_sector(geo, b) && d[a].store
            == SectorStoreStatus::Empty && d[b].store == SectorStoreStatus::Empty
}

/// Both counts of the empty sectors agree.
proof fn lemma_same_count(m: Medium, geo: Geo, d: Map<int, Sect>, o: int, t: int, n: int, last: int)
    requires
        image::holds_image(m, geo, d),
        ring::on_walk(geo, o, t),
    ensures
        model::empty_sectors(m, geo, ring::at(geo, o, t), t, n, last).0 == n + model::count_sectors(
            m,
            geo,
            ring::at(geo, o, t),
            t,
        ).0,
    decreases geo.max - t,
{
    let at = ring::at(geo, o, t);
    ring::lemma_walk(geo, o, t);
    image::lemma_head(m, geo, d, at);
    let s = model::sector_head(m, at);
    lemma_next(geo, o, t, s);
    let (n1, last1) = if s.store == SectorStoreStatus::Empty && s.check_ok {
        (n + 1, s.at)
    } else {
        (n, last)
    };
    if t + geo.sec < geo.max {
        lemma_same_count(m, geo, d, o, t + geo.sec, n1, last1);
    }
}

/// More than one empty sector is counted where two are empty.
pub proof fn lemma_two_empties(m: Medium, geo: Geo, d: Map<int, Sect>, o: int)
    requires
        image::holds_image(m, geo, d),
        db::is_sector(geo, o),
    ensures
        model::empty_sectors(m, geo, o, 0, 0, 0).0 > 1 <==> has_two_empty(geo, d),
{
    ring::lemma_first(geo, o);
    lemma_same_count(m, geo, d, o, 0, 0, 0);
    lemma_count(m, geo, d, o, 0);
    if has_two_empty(geo, d) {
        let (a, b) = choose|a: int, b: int|
            #![trigger d[a], d[b]]
            a != b && db::is_sector(geo, a) && db::is_sector(geo, b) && d[a].store
                == SectorStoreStatus::Empty && d[b].store == SectorStoreStatus::Empty;
        ring::lemma_dist(geo, o, a);
        ring::lemma_dist(geo, o, b);
        assert(d[a].store == SectorStoreStatus::Empty && d[b].store == SectorStoreStatus::Empty);
    }
    if two_ahead(geo, d, o, 0, SectorStoreStatus::Empty) {
        let (a, b) = choose|a: int, b: int|
            #![trigger d[a], d[b]]
            a != b && db::is_sector(geo, a) && db::is_sector(geo, b) && ring::dist(geo, o, a) >= 0
                && ring::dist(geo, o, b) >= 0 && d[a].store == SectorStoreStatus::Empty
                && d[b].store == SectorStoreStatus::Empty;
        assert(d[a].store == SectorStoreStatus::Empty && d[b].store == SectorStoreStatus::Empty);
    }
}

/// The records of a sector have no negative length.
pub proof fn lemma_span(m: Medium, geo: Geo, d: Map<int, Sect>, at: int)
    requires
        image::holds_image(m, geo, d),
        db::is_sector(geo, at),
    ensures
        image::span(d[at].recs) >= 0,
{
    assert(image::sector_at(m.bytes, geo, at, d[at]));
    image::lemma_open_sector(m.bytes, geo, at, d[at]);
    image::lemma_reach(d[at].recs, 0, d[at].recs.len() as int);
}

/// Whether the sector at `a`, described by `s`, is one that room for `size` bytes is
/// found in: a sector in use, or an empty one as long as another stays empty or garbage
/// is being collected.
pub open spec fn slot_in(
    geo: Geo,
    d: Map<int, Sect>,
    a: int,
    size: int,
    gc_request: bool,
    s: SecInfo,
) -> bool {
    &&& s == full_info(geo, a, d[a])
    &&& {
        ||| can_take(geo, d, a, SectorStoreStatus::Using, size, gc_request)
        ||| can_take(geo, d, a, SectorStoreStatus::Empty, size, gc_request) && (gc_request
            || has_two_empty(geo, d))
    }
}

/// Finding room: a sector in use if one has it, else an empty one as long as another
/// stays empty or garbage is being collected.
pub proof fn lemma_find_room(st: KvState, d: Map<int, Sect>, size: int)
    requires
        image::holds_image(st.m, st.geo, d),
        db::is_sector(st.geo, st.oldest),
    ensures
        ({
            let (st1, slot) = model::find_room(st, size);
            let geo = st.geo;
            let gcr = st.gc_request;
            &&& image::read_only(st.m, st1.m, geo, d)
            &&& st1 == (KvState { m: st1.m, gc_request: st1.gc_request, ..st })
            &&& slot is Some ==> st1.gc_request == gcr
            &&& slot matches Some(s) ==> exists|a: int| #[trigger]
                slot_in(geo, d, a, size, gcr, s)
            &&& slot is None ==> forall|a: int|
                !#[trigger] can_take(geo, d, a, SectorStoreStatus::Using, size, gcr)
            &&& slot is None && (gcr || has_two_empty(geo, d)) ==> forall|a: int|
                !#[trigger] can_take(geo, d, a, SectorStoreStatus::Empty, size, gcr)
            &&& slot matches Some(s) ==> {
                ||| takes_first(geo, d, st.oldest, 0, s.at, SectorStoreStatus::Using, size, gcr)
                ||| takes_first(geo, d, st.oldest, 0, s.at, SectorStoreStatus::Empty, size, gcr) && (
                gcr || has_two_empty(geo, d)) && forall|a: int|
                    !#[trigger] can_take(geo, d, a, SectorStoreStatus::Using, size, gcr)
            }
            &&& gcr ==> st1.gc_request
            &&& slot is None && has_empty(geo, d) && !has_two_empty(geo, d) ==> st1.gc_request
        }),
{
    reveal(model::find_room);
    let geo = st.geo;
    let gcr = st.gc_request;
    let o = st.oldest;
    db::lemma_geo(geo);
    vstd::arithmetic::div_mod::lemma_small_mod(0, geo.sec as nat);
    assert(ring::on_walk(geo, o, 0));
    ring::lemma_walk(geo, o, 0);
    lemma_count(st.m, geo, d, o, 0);
    lemma_alloc(st.m, geo, d, o, 0, gcr, SectorStoreStatus::Using, size);
    let (e, u) = model::count_sectors(st.m, geo, o, 0);
    let (m1, s1) = if u > 0 {
        model::alloc_scan(st.m, geo, gcr, SectorStoreStatus::Using, size, o, 0)
    } else {
        (st.m, None)
    };
    assert(image::read_only(st.m, m1, geo, d));
    lemma_alloc(m1, geo, d, o, 0, gcr, SectorStoreStatus::Empty, size);
    assert(has_empty(geo, d) ==> one_ahead(geo, d, o, 0, SectorStoreStatus::Empty)) by {
        if has_empty(geo, d) {
            let a = choose|a: int|
                db::is_sector(geo, a) && (#[trigger] d[a]).store == SectorStoreStatus::Empty;
            assert(ring::dist(geo, o, a) >= 0);
            assert(d[a].store == SectorStoreStatus::Empty);
        }
    }
    assert(has_two_empty(geo, d) ==> two_ahead(geo, d, o, 0, SectorStoreStatus::Empty)) by {
        if has_two_empty(geo, d) {
            let (a, b) = choose|a: int, b: int|
                #![trigger d[a], d[b]]
                a != b && db::is_sector(geo, a) && db::is_sector(geo, b) && d[a].store
                    == SectorStoreStatus::Empty && d[b].store == SectorStoreStatus::Empty;
            assert(ring::dist(geo, o, a) >= 0 && ring::dist(geo, o, b) >= 0);
            assert(d[a].store == SectorStoreStatus::Empty && d[b].store
                == SectorStoreStatus::Empty);
        }
    }
    assert(two_ahead(geo, d, o, 0, SectorStoreStatus::Empty) ==> has_two_empty(geo, d)) by {
        if two_ahead(geo, d, o, 0, SectorStoreStatus::Empty) {
            let (a, b) = choose|a: int, b: int|
                #![trigger d[a], d[b]]
                a != b && db::is_sector(geo, a) && db::is_sector(geo, b) && ring::dist(geo, o, a) >= 0
                    && ring::dist(geo, o, b) >= 0 && d[a].store == SectorStoreStatus::Empty
                    && d[b].store == SectorStoreStatus::Empty;
            assert(d[a].store == SectorStoreStatus::Empty && d[b].store
                == SectorStoreStatus::Empty);
        }
    }
    let (st1, slot) = model::find_room(st, size);
    if slot is Some {
        let s = slot.unwrap();
        let w = if s1 is Some {
            SectorStoreStatus::Using
        } else {
            SectorStoreStatus::Empty
        };
        let a = choose|a: int| #[trigger]
            can_take(geo, d, a, w, size, gcr) && s == full_info(geo, a, d[a]);
        assert(slot_in(geo, d, a, size, gcr, s));
    }
    if slot is None {
        assert forall|a: int| !#[trigger] can_take(
            geo,
            d,
            a,
            SectorStoreStatus::Using,
            size,
            gcr,
        ) by {
            if can_take(geo, d, a, SectorStoreStatus::Using, size, gcr) {
                assert(ring::dist(geo, o, a) >= 0);
                assert(one_ahead(geo, d, o, 0, SectorStoreStatus::Using)) by {
                    assert(d[a].store == SectorStoreStatus::Using);
                }
            }
        }
        if gcr || has_two_empty(geo, d) {
            assert forall|a: int| !#[trigger] can_take(
                geo,
                d,
                a,
                SectorStoreStatus::Empty,
                size,
                gcr,
            ) by {
                if can_take(geo, d, a, SectorStoreStatus::Empty, size, gcr) {
                    assert(ring::dist(geo, o, a) >= 0);
                    assert(one_ahead(geo, d, o, 0, SectorStoreStatus::Empty)) by {
                        assert(d[a].store == SectorStoreStatus::Empty);
                    }
                }
            }
        }
    }
}

} // verus!
