//! What iterating and checking the key-value database promise: every live record comes
//! once, and a database passes where all its records are sound.
use vstd::prelude::*;

use crate::db;
use crate::db::Geo;
use crate::def::{KvStatus, KV_NAME_MAX};
use crate::error::FdbError;
use crate::kv_gc as gc;
use crate::kv_image as image;
use crate::kv_image::Sect;
use crate::kv_lookup as lookup;
use crate::kv_model as model;
use crate::kv_model::{Cursor, KvState, Node, SecInfo};
use crate::ring;
use crate::storage::Medium;

verus! {

/// The live records from the `i`th record on of the sector that a walk from the sector `o`
/// on comes to after `t` bytes, in the order of the walk: each as the address of its
/// sector and its place among the records there.
pub open spec fn live_list(geo: Geo, d: Map<int, Sect>, o: int, t: int, i: int) -> Seq<(int, int)>
    decreases geo.max - t, d[ring::at(geo, o, t)].recs.len() - i,
{
    let at = ring::at(geo, o, t);
    if 0 <= i < d[at].recs.len() {
        let rest = live_list(geo, d, o, t, i + 1);
        if gc::live(geo, d, at, i) {
            seq![(at, i)] + rest
        } else {
            rest
        }
    } else if geo.sec > 0 && t + geo.sec < geo.max {
        live_list(geo, d, o, t + geo.sec, 0)
    } else {
        Seq::empty()
    }
}

/// Whether the `j`th record of the sector at `a` comes at the `i`th record of the sector
/// after `t` bytes or behind it.
pub open spec fn comes(geo: Geo, o: int, t: int, i: int, a: int, j: int) -> bool {
    ring::dist(geo, o, a) >= t && (a == ring::at(geo, o, t) ==> j >= i)
}

/// The list holds the live records that are still to come, each once.
proof fn lemma_list(geo: Geo, d: Map<int, Sect>, o: int, t: int, i: int)
    requires
        ring::on_walk(geo, o, t),
        0 <= i <= d[ring::at(geo, o, t)].recs.len(),
    ensures
        ({
            let list = live_list(geo, d, o, t, i);
            &&& forall|k: int|
                0 <= k < list.len() ==> gc::live(geo, d, (#[trigger] list[k]).0, list[k].1)
                    && comes(geo, o, t, i, list[k].0, list[k].1)
            &&& forall|a: int, j: int|
                gc::live(geo, d, a, j) && comes(geo, o, t, i, a, j) ==> #[trigger] list.contains(
                    (a, j),
                )
            &&& list.no_duplicates()
        }),
    decreases geo.max - t, d[ring::at(geo, o, t)].recs.len() - i,
{
    let at = ring::at(geo, o, t);
    let list = live_list(geo, d, o, t, i);
    ring::lemma_walk(geo, o, t);
    if i < d[at].recs.len() {
        lemma_list(geo, d, o, t, i + 1);
        let rest = live_list(geo, d, o, t, i + 1);
        if gc::live(geo, d, at, i) {
            assert(list =~= seq![(at, i)] + rest);
            assert forall|k: int| 0 <= k < list.len() implies gc::live(
                geo,
                d,
                (#[trigger] list[k]).0,
                list[k].1,
            ) && comes(geo, o, t, i, list[k].0, list[k].1) by {
                if k > 0 {
                    assert(list[k] == rest[k - 1]);
                }
            }
            assert forall|a: int, j: int|
                gc::live(geo, d, a, j) && comes(geo, o, t, i, a, j) implies
                #[trigger] list.contains((a, j)) by {
                if a == at && j == i {
                    assert(list[0] == (a, j));
                } else {
                    assert(rest.contains((a, j)));
                    let k = choose|k: int| 0 <= k < rest.len() && rest[k] == (a, j);
                    assert(list[k + 1] == (a, j));
                }
            }
            assert forall|k: int, l: int|
                0 <= k < list.len() && 0 <= l < list.len() && k != l implies list[k]
                != list[l] by {
                if k > 0 {
                    assert(list[k] == rest[k - 1]);
                }
                if l > 0 {
                    assert(list[l] == rest[l - 1]);
                }
            }
        } else {
            assert forall|a: int, j: int|
                gc::live(geo, d, a, j) && comes(geo, o, t, i, a, j) implies
                #[trigger] list.contains((a, j)) by {
                assert(rest.contains((a, j)));
            }
        }
    } else if t + geo.sec < geo.max {
        lemma_list(geo, d, o, t + geo.sec, 0);
        assert forall|a: int, j: int|
            gc::live(geo, d, a, j) && comes(geo, o, t, i, a, j) implies #[trigger] list.contains(
            (a, j),
        ) by {
            ring::lemma_ahead(geo, o, t, a);
            ring::lemma_walk(geo, o, t + geo.sec);
            assert(comes(geo, o, t + geo.sec, 0, a, j));
        }
    } else {
        assert forall|a: int, j: int|
            gc::live(geo, d, a, j) && comes(geo, o, t, i, a, j) implies #[trigger] list.contains(
            (a, j),
        ) by {
            ring::lemma_ahead(geo, o, t, a);
            ring::lemma_dist(geo, o, a);
        }
    }
}

/// Whether the cursor stands before the `i`th record of the sector after `t` bytes.
pub open spec fn stands(geo: Geo, d: Map<int, Sect>, o: int, t: int, i: int, c: Cursor) -> bool {
    let at = ring::at(geo, o, t);
    let recs = d[at].recs;
    &&& c.sec == at
    &&& c.traversed == t
    &&& c.node.name.len() == KV_NAME_MAX
    &&& 0 <= i <= recs.len()
    &&& i == 0 ==> c.node.at == 0
    &&& i > 0 ==> {
        &&& c.node.at == image::place(at, recs, i - 1)
        &&& c.node.len == image::body(recs[i - 1])
        &&& c.node.crc_ok
        &&& recs[i - 1].sound
    }
}

/// Whether the `j`th record of a sector is the first live one from the `i`th on.
pub open spec fn first_live(geo: Geo, d: Map<int, Sect>, at: int, i: int, j: int) -> bool {
    &&& i <= j
    &&& gc::live(geo, d, at, j)
    &&& forall|k: int| i <= k < j ==> !#[trigger] gc::live(geo, d, at, k)
}

proof fn lemma_live_in(
    m: Medium,
    geo: Geo,
    d: Map<int, Sect>,
    at: int,
    info: SecInfo,
    i: int,
    n: Node,
)
    requires
        image::holds_image(m, geo, d),
        db::is_sector(geo, at),
        info.at == at,
        info.store == d[at].store,
        0 <= i < d[at].recs.len(),
        n.at == image::place(at, d[at].recs, i),
        n.name.len() == KV_NAME_MAX,
    ensures
        ({
            let (m1, n1, found) = model::live_in_sector(m, geo, info, n);
            &&& image::read_only(m, m1, geo, d)
            &&& n1.name.len() == KV_NAME_MAX
            &&& found ==> exists|j: int| #[trigger]
                first_live(geo, d, at, i, j) && lookup::shown(d, at, j, n1)
            &&& !found ==> forall|j: int| i <= j ==> !#[trigger] gc::live(geo, d, at, j)
        }),
    decreases d[at].recs.len() - i,
{
    let recs = d[at].recs;
    image::lemma_step(m, geo, d, at, info, i, n);
    let m1 = model::after_read(m, geo, n.at);
    let n1 = model::read_node(m, geo, n);
    assert((n1.status == KvStatus::Write && n1.crc_ok) == gc::live(geo, d, at, i));
    if gc::live(geo, d, at, i) {
        assert(first_live(geo, d, at, i, i) && lookup::shown(d, at, i, n1));
    } else if i + 1 < recs.len() {
        let a = image::place(at, recs, i + 1);
        lemma_live_in(m1, geo, d, at, info, i + 1, Node { at: a, ..n1 });
        let (m2, n2, found) = model::live_in_sector(
            m1,
            geo,
            info,
            Node { at: a, ..n1 },
        );
        if found {
            let j = choose|j: int| #[trigger]
                first_live(geo, d, at, i + 1, j) && lookup::shown(d, at, j, n2);
            assert(first_live(geo, d, at, i, j));
        }
    }
}

/// The list of live records from one place to the next live one.
proof fn lemma_list_skip(geo: Geo, d: Map<int, Sect>, o: int, t: int, i: int, j: int)
    requires
        0 <= i <= j < d[ring::at(geo, o, t)].recs.len(),
        forall|k: int| i <= k < j ==> !#[trigger] gc::live(geo, d, ring::at(geo, o, t), k),
    ensures
        live_list(geo, d, o, t, i) == live_list(geo, d, o, t, j),
    decreases j - i,
{
    if i < j {
        assert(!gc::live(geo, d, ring::at(geo, o, t), i));
        lemma_list_skip(geo, d, o, t, i + 1, j);
    }
}

/// The list of live records where none is left in a sector.
proof fn lemma_list_end(geo: Geo, d: Map<int, Sect>, o: int, t: int, i: int)
    requires
        0 <= i <= d[ring::at(geo, o, t)].recs.len(),
        forall|k: int| i <= k ==> !#[trigger] gc::live(geo, d, ring::at(geo, o, t), k),
        geo.sec > 0,
    ensures
        live_list(geo, d, o, t, i) == (if t + geo.sec < geo.max {
            live_list(geo, d, o, t + geo.sec, 0)
        } else {
            Seq::empty()
        }),
    decreases d[ring::at(geo, o, t)].recs.len() - i,
{
    if i < d[ring::at(geo, o, t)].recs.len() {
        assert(!gc::live(geo, d, ring::at(geo, o, t), i));
        lemma_list_end(geo, d, o, t, i + 1);
    }
}

/// Whether a cursor has come to the first live record of the list from the `i`th record of
/// the sector after `t` bytes on: it is the `j`th of the sector after `u` bytes.
pub open spec fn came(
    geo: Geo,
    d: Map<int, Sect>,
    o: int,
    t: int,
    i: int,
    u: int,
    j: int,
    c: Cursor,
) -> bool {
    let at = ring::at(geo, o, u);
    &&& ring::on_walk(geo, o, u)
    &&& t < u || (t == u && i <= j)
    &&& gc::live(geo, d, at, j)
    &&& lookup::shown(d, at, j, c.node)
    &&& stands(geo, d, o, u, j + 1, c)
    &&& live_list(geo, d, o, t, i) == seq![(at, j)] + live_list(geo, d, o, u, j + 1)
}

/// Looking for the next live record in the sector that the cursor stands in.
proof fn lemma_seek_here(
    m: Medium,
    geo: Geo,
    d: Map<int, Sect>,
    o: int,
    t: int,
    i: int,
    c: Cursor,
)
    requires
        image::holds_image(m, geo, d),
        ring::on_walk(geo, o, t),
        stands(geo, d, o, t, i, c),
    ensures
        ({
            let at = ring::at(geo, o, t);
            let (m1, n1, found) = model::seek_here(m, geo, c);
            &&& image::read_only(m, m1, geo, d)
            &&& n1.name.len() == KV_NAME_MAX
            &&& found ==> exists|j: int| #[trigger]
                first_live(geo, d, at, i, j) && lookup::shown(d, at, j, n1)
            &&& !found ==> forall|j: int| i <= j ==> !#[trigger] gc::live(geo, d, at, j)
        }),
{
    let at = ring::at(geo, o, t);
    let recs = d[at].recs;
    ring::lemma_walk(geo, o, t);
    image::lemma_head(m, geo, d, at);
    let s = model::sector_head(m, at);
    assert(image::sector_at(m.bytes, geo, at, d[at]));
    image::lemma_open_sector(m.bytes, geo, at, d[at]);
    if recs.len() > 0 {
        if i == 0 {
            assert(image::place(at, recs, 0) == at + 16);
        } else {
            image::lemma_place(m.bytes, geo, at, d[at], i - 1);
            image::lemma_next_node_in(m.bytes, geo, at, d[at], s, i - 1, c.node);
        }
        if i < recs.len() {
            let a = image::place(at, recs, i);
            lemma_live_in(m, geo, d, at, s, i, Node { at: a, ..c.node });
        }
    }
}

/// Looking for the next live record.
proof fn lemma_seek(m: Medium, geo: Geo, d: Map<int, Sect>, o: int, t: int, i: int, c: Cursor)
    requires
        image::holds_image(m, geo, d),
        ring::on_walk(geo, o, t),
        stands(geo, d, o, t, i, c),
    ensures
        ({
            let (m1, c1, found) = model::seek(m, geo, c);
            &&& image::read_only(m, m1, geo, d)
            &&& found ==> exists|u: int, j: int| #[trigger] came(geo, d, o, t, i, u, j, c1)
            &&& !found ==> live_list(geo, d, o, t, i) == Seq::<(int, int)>::empty()
        }),
    decreases geo.max - t,
{
    let at = ring::at(geo, o, t);
    ring::lemma_walk(geo, o, t);
    image::lemma_head(m, geo, d, at);
    let s = model::sector_head(m, at);
    lookup::lemma_next(geo, o, t, s);
    lemma_seek_here(m, geo, d, o, t, i, c);
    let (m1, n1, found) = model::seek_here(m, geo, c);
    if found {
        let j = choose|j: int| #[trigger]
            first_live(geo, d, at, i, j) && lookup::shown(d, at, j, n1);
        lemma_list_skip(geo, d, o, t, i, j);
        assert(came(geo, d, o, t, i, t, j, Cursor { node: n1, ..c }));
    } else {
        lemma_list_end(geo, d, o, t, i);
        if t + geo.sec < geo.max {
            let c1 = Cursor {
                node: Node { at: 0, ..n1 },
                traversed: t + geo.sec,
                sec: ring::at(geo, o, t + geo.sec),
            };
            lemma_seek(m1, geo, d, o, t + geo.sec, 0, c1);
            let (m2, c2, found2) = model::seek(m1, geo, c1);
            if found2 {
                let (u, j) = choose|u: int, j: int| #[trigger]
                    came(geo, d, o, t + geo.sec, 0, u, j, c2);
                assert(came(geo, d, o, t, i, u, j, c2));
            }
        }
    }
}

/// A cursor that came to a live record stands behind the one it started from.
proof fn lemma_came_further(
    m: Medium,
    geo: Geo,
    d: Map<int, Sect>,
    o: int,
    t: int,
    i: int,
    u: int,
    j: int,
    c: Cursor,
    c1: Cursor,
)
    requires
        image::holds_image(m, geo, d),
        ring::on_walk(geo, o, t),
        stands(geo, d, o, t, i, c),
        came(geo, d, o, t, i, u, j, c1),
    ensures
        model::advanced(geo, c, c1),
{
    let at = ring::at(geo, o, u);
    ring::lemma_walk(geo, o, u);
    assert(image::sector_at(m.bytes, geo, at, d[at]));
    image::lemma_open_sector(m.bytes, geo, at, d[at]);
    image::lemma_place(m.bytes, geo, at, d[at], j);
    if i > 0 && u == t {
        image::lemma_place(m.bytes, geo, at, d[at], i - 1);
        image::lemma_reach(d[at].recs, i - 1, j);
    }
}

/// Gathering the live records that are still to come.
#[verifier::rlimit(40)]
proof fn lemma_gather(m: Medium, geo: Geo, d: Map<int, Sect>, o: int, t: int, i: int, c: Cursor)
    requires
        image::holds_image(m, geo, d),
        ring::on_walk(geo, o, t),
        stands(geo, d, o, t, i, c),
    ensures
        ({
            let (m1, nodes) = model::gather(m, geo, c);
            let list = live_list(geo, d, o, t, i);
            &&& image::read_only(m, m1, geo, d)
            &&& nodes.len() == list.len()
            &&& forall|k: int|
                0 <= k < list.len() ==> lookup::shown(
                    d,
                    (#[trigger] list[k]).0,
                    list[k].1,
                    nodes[k],
                )
        }),
    decreases live_list(geo, d, o, t, i).len(),
{
    let list = live_list(geo, d, o, t, i);
    lemma_seek(m, geo, d, o, t, i, c);
    let (m1, c1, found) = model::seek(m, geo, c);
    if found {
        let (u, j) = choose|u: int, j: int| #[trigger] came(geo, d, o, t, i, u, j, c1);
        lemma_came_further(m, geo, d, o, t, i, u, j, c, c1);
        let rest = live_list(geo, d, o, u, j + 1);
        lemma_gather(m1, geo, d, o, u, j + 1, c1);
        let (m2, more) = model::gather(m1, geo, c1);
        let nodes = seq![c1.node] + more;
        assert forall|k: int| 0 <= k < list.len() implies lookup::shown(
            d,
            (#[trigger] list[k]).0,
            list[k].1,
            nodes[k],
        ) by {
            if k > 0 {
                assert(list[k] == rest[k - 1]);
                assert(nodes[k] == more[k - 1]);
            }
        }
    }
}

/// Whether a walk from the sector `o` on comes to the record `x` before it comes to `y`: each is
/// given by the address of its sector and its place there.
pub open spec fn earlier(geo: Geo, o: int, x: (int, int), y: (int, int)) -> bool {
    ring::dist(geo, o, x.0) < ring::dist(geo, o, y.0) || (x.0 == y.0 && x.1 < y.1)
}

/// The list is in the order of the walk.
proof fn lemma_list_order(geo: Geo, d: Map<int, Sect>, o: int, t: int, i: int)
    requires
        ring::on_walk(geo, o, t),
        0 <= i <= d[ring::at(geo, o, t)].recs.len(),
    ensures
        ({
            let list = live_list(geo, d, o, t, i);
            forall|k: int, l: int|
                0 <= k < l < list.len() ==> earlier(geo, o, #[trigger] list[k], #[trigger] list[l])
        }),
    decreases geo.max - t, d[ring::at(geo, o, t)].recs.len() - i,
{
    let at = ring::at(geo, o, t);
    let list = live_list(geo, d, o, t, i);
    ring::lemma_walk(geo, o, t);
    if i < d[at].recs.len() {
        let rest = live_list(geo, d, o, t, i + 1);
        lemma_list_order(geo, d, o, t, i + 1);
        lemma_list(geo, d, o, t, i + 1);
        if gc::live(geo, d, at, i) {
            assert(list =~= seq![(at, i)] + rest);
            assert forall|k: int, l: int| 0 <= k < l < list.len() implies earlier(
                geo,
                o,
                #[trigger] list[k],
                #[trigger] list[l],
            ) by {
                assert(list[l] == rest[l - 1]);
                if k > 0 {
                    assert(list[k] == rest[k - 1]);
                } else {
                    let p = rest[l - 1];
                    assert(gc::live(geo, d, p.0, p.1) && comes(geo, o, t, i + 1, p.0, p.1));
                    assert(list[0] == (at, i));
                    ring::lemma_ahead(geo, o, t, p.0);
                }
            }
        } else {
            assert(list == rest);
        }
    } else if t + geo.sec < geo.max {
        ring::lemma_walk(geo, o, t + geo.sec);
        lemma_list_order(geo, d, o, t + geo.sec, 0);
        assert(list == live_list(geo, d, o, t + geo.sec, 0));
    } else {
        assert(list.len() == 0);
    }
}

/// Iterating a database gives every live record once, in the order of the walk from the
/// oldest sector on, and only reads the medium.
pub proof fn iteration_gives_every_live_record_once(st: KvState, d: Map<int, Sect>)
    requires
        image::holds_image(st.m, st.geo, d),
        db::is_sector(st.geo, st.oldest),
    ensures
        ({
            let (m1, nodes) = model::live_nodes(st);
            let list = live_list(st.geo, d, st.oldest, 0, 0);
            &&& image::read_only(st.m, m1, st.geo, d)
            &&& nodes.len() == list.len()
            &&& forall|k: int|
                0 <= k < nodes.len() ==> gc::live(st.geo, d, list[k].0, list[k].1)
                    && lookup::shown(d, list[k].0, list[k].1, #[trigger] nodes[k])
            &&& forall|a: int, j: int|
                gc::live(st.geo, d, a, j) ==> #[trigger] list.contains((a, j))
            &&& list.no_duplicates()
            &&& forall|k: int, l: int|
                0 <= k < l < list.len() ==> earlier(
                    st.geo,
                    st.oldest,
                    #[trigger] list[k],
                    #[trigger] list[l],
                )
        }),
{
    let geo = st.geo;
    let o = st.oldest;
    ring::lemma_first(geo, o);
    lemma_list_order(geo, d, o, 0, 0);
    let c = model::first_cursor(o);
    assert(stands(geo, d, o, 0, 0, c));
    lemma_gather(st.m, geo, d, o, 0, 0, c);
    lemma_list(geo, d, o, 0, 0);
    let (m1, nodes) = model::live_nodes(st);
    let list = live_list(geo, d, o, 0, 0);
    assert forall|k: int| 0 <= k < nodes.len() implies gc::live(geo, d, list[k].0, list[k].1)
        && lookup::shown(d, list[k].0, list[k].1, #[trigger] nodes[k]) by {
        let p = list[k];
    }
    assert forall|a: int, j: int| gc::live(geo, d, a, j) implies #[trigger] list.contains(
        (a, j),
    ) by {
        assert(comes(geo, o, 0, 0, a, j));
    }
}

/// The total length of the records in a list.
pub open spec fn record_bytes(d: Map<int, Sect>, list: Seq<(int, int)>) -> int
    decreases list.len(),
{
    if list.len() == 0 {
        0
    } else {
        image::body(d[list[0].0].recs[list[0].1]) + record_bytes(d, list.drop_first())
    }
}

/// The total length of the values of the records in a list.
pub open spec fn value_bytes(d: Map<int, Sect>, list: Seq<(int, int)>) -> int
    decreases list.len(),
{
    if list.len() == 0 {
        0
    } else {
        d[list[0].0].recs[list[0].1].value.len() + value_bytes(d, list.drop_first())
    }
}

/// The counters of an iterator that came past a list of records, from the counters `n` on.
pub open spec fn totals(n: (int, int, int), d: Map<int, Sect>, list: Seq<(int, int)>) -> (
    int,
    int,
    int,
) {
    (
        model::least(n.0 + list.len(), u32::MAX as int),
        model::least(n.1 + record_bytes(d, list), usize::MAX as int),
        model::least(n.2 + value_bytes(d, list), usize::MAX as int),
    )
}

proof fn lemma_totals_min(d: Map<int, Sect>, list: Seq<(int, int)>)
    requires
        forall|k: int| 0 <= k < list.len() ==> d[(#[trigger] list[k]).0].recs[list[k].1].sound,
    ensures
        record_bytes(d, list) >= 0,
        value_bytes(d, list) >= 0,
    decreases list.len(),
{
    if list.len() > 0 {
        let rest = list.drop_first();
        assert(d[list[0].0].recs[list[0].1].sound);
        assert forall|k: int| 0 <= k < rest.len() implies d[(
        #[trigger] rest[k]).0].recs[rest[k].1].sound by {
            assert(rest[k] == list[k + 1]);
        }
        lemma_totals_min(d, rest);
    }
}

/// Stepping over the live records that are still to come.
#[verifier::rlimit(40)]
proof fn lemma_steps(
    m: Medium,
    geo: Geo,
    d: Map<int, Sect>,
    o: int,
    t: int,
    i: int,
    c: Cursor,
    n: (int, int, int),
    k: nat,
)
    requires
        image::holds_image(m, geo, d),
        ring::on_walk(geo, o, t),
        stands(geo, d, o, t, i, c),
        n.0 <= u32::MAX,
        n.1 <= usize::MAX,
        n.2 <= usize::MAX,
        k <= live_list(geo, d, o, t, i).len(),
    ensures
        ({
            let list = live_list(geo, d, o, t, i);
            let (m1, c1, n1) = model::steps(m, geo, c, n, k);
            let (m2, c2, found) = model::seek(m1, geo, c1);
            &&& image::read_only(m, m2, geo, d)
            &&& found == (k < list.len())
            &&& k < list.len() ==> lookup::shown(d, list[k as int].0, list[k as int].1, c2.node)
            &&& k == list.len() ==> n1 == totals(n, d, list)
        }),
    decreases k,
{
    let list = live_list(geo, d, o, t, i);
    lemma_seek(m, geo, d, o, t, i, c);
    let (m1, c1, found) = model::seek(m, geo, c);
    if found {
        let (u, j) = choose|u: int, j: int| #[trigger] came(geo, d, o, t, i, u, j, c1);
        let at = ring::at(geo, o, u);
        let rest = live_list(geo, d, o, u, j + 1);
        assert(list[0] == (at, j));
        assert(list.drop_first() =~= rest);
        if k > 0 {
            let n1 = model::counted(n, c1.node);
            lemma_steps(m1, geo, d, o, u, j + 1, c1, n1, (k - 1) as nat);
            lemma_list(geo, d, o, u, j + 1);
            lemma_totals_min(d, rest);
            assert(c1.node.len == image::body(d[at].recs[j]));
            assert(c1.node.value_len == d[at].recs[j].value.len());
            assert(k < list.len() ==> list[k as int] == rest[k - 1]);
        }
    }
}

/// Iterating to the end: an iterator gives the live records one by one, each once and in the
/// order of the walk, and then no more. Its counters then say how many there are, and how
/// many bytes they and their values take. Where no two of them have the same name, no name
/// comes twice.
pub proof fn iterating_to_the_end_counts_every_live_record(st: KvState, d: Map<int, Sect>)
    requires
        image::holds_image(st.m, st.geo, d),
        db::is_sector(st.geo, st.oldest),
    ensures
        ({
            let list = live_list(st.geo, d, st.oldest, 0, 0);
            let c = model::first_cursor(st.oldest);
            &&& forall|k: nat|
                k <= list.len() ==> {
                    let (m1, c1, n1) = #[trigger] model::steps(st.m, st.geo, c, (0, 0, 0), k);
                    let (m2, c2, found) = model::seek(m1, st.geo, c1);
                    &&& image::read_only(st.m, m2, st.geo, d)
                    &&& found == (k < list.len())
                    &&& k < list.len() ==> lookup::shown(
                        d,
                        list[k as int].0,
                        list[k as int].1,
                        c2.node,
                    )
                    &&& k == list.len() ==> n1 == totals((0, 0, 0), d, list)
                }
            &&& forall|a: int, j: int|
                gc::live(st.geo, d, a, j) <==> #[trigger] list.contains((a, j))
            &&& list.no_duplicates()
            &&& gc::unique(st.geo, d) ==> forall|k: int, l: int|
                0 <= k < l < list.len() ==> d[(#[trigger] list[k]).0].recs[list[k].1].name != d[(
                #[trigger] list[l]).0].recs[list[l].1].name
        }),
{
    let geo = st.geo;
    let o = st.oldest;
    ring::lemma_first(geo, o);
    let c = model::first_cursor(o);
    assert(stands(geo, d, o, 0, 0, c));
    lemma_list(geo, d, o, 0, 0);
    let list = live_list(geo, d, o, 0, 0);
    assert forall|k: nat| k <= list.len() implies {
        let (m1, c1, n1) = #[trigger] model::steps(st.m, geo, c, (0, 0, 0), k);
        let (m2, c2, found) = model::seek(m1, geo, c1);
        &&& image::read_only(st.m, m2, geo, d)
        &&& found == (k < list.len())
        &&& k < list.len() ==> lookup::shown(d, list[k as int].0, list[k as int].1, c2.node)
        &&& k == list.len() ==> n1 == totals((0, 0, 0), d, list)
    } by {
        lemma_steps(st.m, geo, d, o, 0, 0, c, (0, 0, 0), k);
    }
    assert forall|a: int, j: int| gc::live(geo, d, a, j) <==> #[trigger] list.contains((a, j)) by {
        assert(gc::live(geo, d, a, j) ==> comes(geo, o, 0, 0, a, j));
        if list.contains((a, j)) {
            let k = choose|k: int| 0 <= k < list.len() && list[k] == (a, j);
            assert(list[k].0 == a);
        }
    }
    if gc::unique(geo, d) {
        assert forall|k: int, l: int| 0 <= k < l < list.len() implies d[(
        #[trigger] list[k]).0].recs[list[k].1].name != d[(
        #[trigger] list[l]).0].recs[list[l].1].name by {
            assert(list[k] != list[l]);
            assert(gc::live(geo, d, list[k].0, list[k].1));
            assert(gc::live(geo, d, list[l].0, list[l].1));
        }
    }
}

// --------------------------------------------------------------------------- checking

/// Whether all records of an image are sound.
pub open spec fn all_sound(geo: Geo, d: Map<int, Sect>) -> bool {
    forall|a: int, j: int|
        db::is_sector(geo, a) && 0 <= j < d[a].recs.len() ==> (#[trigger] d[a].recs[j]).sound
}

proof fn lemma_check_in(
    m: Medium,
    geo: Geo,
    d: Map<int, Sect>,
    at: int,
    info: SecInfo,
    i: int,
    n: Node,
)
    requires
        image::holds_image(m, geo, d),
        db::is_sector(geo, at),
        info.at == at,
        info.store == d[at].store,
        0 <= i < d[at].recs.len(),
        n.at == image::place(at, d[at].recs, i),
        n.name.len() == KV_NAME_MAX,
    ensures
        ({
            let (m1, r) = model::check_in_sector(m, geo, info, n);
            &&& image::read_only(m, m1, geo, d)
            &&& r matches Err(e) ==> e == FdbError::ReadErr
            &&& r is Ok <==> forall|j: int|
                i <= j < d[at].recs.len() ==> (#[trigger] d[at].recs[j]).sound
        }),
    decreases d[at].recs.len() - i,
{
    let recs = d[at].recs;
    image::lemma_step(m, geo, d, at, info, i, n);
    let m1 = model::after_read(m, geo, n.at);
    let n1 = model::read_node(m, geo, n);
    if !recs[i].sound {
        assert(!d[at].recs[i].sound);
    } else if i + 1 < recs.len() {
        let a = image::place(at, recs, i + 1);
        lemma_check_in(m1, geo, d, at, info, i + 1, Node { at: a, ..n1 });
    }
}

proof fn lemma_check_from(m: Medium, geo: Geo, d: Map<int, Sect>, o: int, t: int)
    requires
        image::holds_image(m, geo, d),
        ring::on_walk(geo, o, t),
    ensures
        ({
            let (m1, r) = model::check_from(m, geo, ring::at(geo, o, t), t);
            &&& image::read_only(m, m1, geo, d)
            &&& r matches Err(e) ==> e == FdbError::ReadErr
            &&& r is Ok <==> forall|a: int, j: int|
                db::is_sector(geo, a) && ring::dist(geo, o, a) >= t && 0 <= j < d[a].recs.len()
                    ==> (#[trigger] d[a].recs[j]).sound
        }),
    decreases geo.max - t,
{
    let at = ring::at(geo, o, t);
    ring::lemma_walk(geo, o, t);
    image::lemma_head(m, geo, d, at);
    let s = model::sector_head(m, at);
    assert(image::sector_at(m.bytes, geo, at, d[at]));
    image::lemma_open_sector(m.bytes, geo, at, d[at]);
    lookup::lemma_next(geo, o, t, s);
    let n0 = Node { at: at + 16, ..model::blank_node() };
    if d[at].recs.len() > 0 {
        assert(image::place(at, d[at].recs, 0) == at + 16);
        lemma_check_in(m, geo, d, at, s, 0, n0);
    }
    let (m1, r) = if model::has_nodes(s) {
        model::check_in_sector(m, geo, s, n0)
    } else {
        (m, Ok(()))
    };
    if r is Err {
        let j = choose|j: int| 0 <= j < d[at].recs.len() && !(#[trigger] d[at].recs[j]).sound;
        assert(!d[at].recs[j].sound);
    } else {
        if t + geo.sec < geo.max {
            lemma_check_from(m1, geo, d, o, t + geo.sec);
        }
        let out = model::check_from(m, geo, at, t).1;
        if out is Ok {
            assert forall|a: int, j: int|
                db::is_sector(geo, a) && ring::dist(geo, o, a) >= t && 0 <= j
                    < d[a].recs.len() implies (#[trigger] d[a].recs[j]).sound by {
                ring::lemma_ahead(geo, o, t, a);
                ring::lemma_dist(geo, o, a);
            }
        } else {
            let (a, j) = choose|a: int, j: int|
                db::is_sector(geo, a) && ring::dist(geo, o, a) >= t + geo.sec && 0 <= j
                    < d[a].recs.len() && !(#[trigger] d[a].recs[j]).sound;
            assert(!d[a].recs[j].sound);
        }
    }
}

/// Checking a database passes if and only if all its records are sound; a record that is
/// not is reported as `ReadErr`.
pub proof fn check_passes_where_all_is_sound(st: KvState, d: Map<int, Sect>)
    requires
        image::holds_image(st.m, st.geo, d),
        db::is_sector(st.geo, st.oldest),
    ensures
        ({
            let (m1, r) = model::check_from(st.m, st.geo, st.oldest, 0);
            &&& image::read_only(st.m, m1, st.geo, d)
            &&& r == (if all_sound(st.geo, d) {
                Ok(())
            } else {
                Err(FdbError::ReadErr)
            })
        }),
{
    ring::lemma_first(st.geo, st.oldest);
    lemma_check_from(st.m, st.geo, d, st.oldest, 0);
    let (m1, r) = model::check_from(st.m, st.geo, st.oldest, 0);
    if all_sound(st.geo, d) {
        assert(r is Ok);
        assert(r->Ok_0 == ());
    } else {
        let (a, j) = choose|a: int, j: int|
            db::is_sector(st.geo, a) && 0 <= j < d[a].recs.len() && !(
            #[trigger] d[a].recs[j]).sound;
        ring::lemma_dist(st.geo, st.oldest, a);
        assert(!d[a].recs[j].sound);
        assert(r is Err);
    }
}

} // verus!
