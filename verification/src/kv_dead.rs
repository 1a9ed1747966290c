//! Once its power is gone a medium stays as it is, whatever the key-value database does.
use vstd::prelude::*;

use crate::db::Geo;
use crate::def::{KvStatus, SectorStoreStatus};
use crate::kv_model as model;
use crate::kv_model::{KvState, Node, SecInfo};
use crate::storage::Medium;

verus! {

/// Whether the power of a medium is gone.
pub open spec fn dead(m: Medium) -> bool {
    m.budget == Some(0nat)
}

proof fn lemma_read(m: Medium, geo: Geo, at: int)
    requires
        dead(m),
    ensures
        model::after_read(m, geo, at) == m,
{
    reveal(model::after_read);
}

proof fn lemma_tally(m: Medium, geo: Geo, s: SecInfo, n: Node)
    requires
        dead(m),
    ensures
        model::tally(m, geo, s, n).0 == m,
    decreases s.at + geo.sec - n.at,
{
    lemma_read(m, geo, n.at);
    let n1 = model::read_node(m, geo, n);
    if n1.crc_ok || n1.status == KvStatus::PreWrite || n1.status == KvStatus::ErrHdr {
        let end = n1.at + n1.len;
        let s1 = SecInfo { empty: model::sat(end), remain: s.at + geo.sec - end, ..s };
        match model::next_node(m.bytes, geo, s1, n1) {
            None => {},
            Some(a) => {
                if n.at < a <= s.at + geo.sec {
                    lemma_tally(m, geo, s1, Node { at: a, ..n1 });
                }
            },
        }
    }
}

pub proof fn lemma_full(m: Medium, geo: Geo, at: int)
    requires
        dead(m),
    ensures
        model::sector_full(m, geo, at).0 == m,
{
    let s = model::sector_head(m, at);
    if s.check_ok && s.store == SectorStoreStatus::Using {
        lemma_tally(
            m,
            geo,
            SecInfo { remain: geo.sec - 16, empty: at + 16, ..s },
            Node { at: at + 16, ..model::blank_node() },
        );
    }
}

proof fn lemma_alloc(
    m: Medium,
    geo: Geo,
    gcr: bool,
    want: SectorStoreStatus,
    size: int,
    at: int,
    traversed: int,
)
    requires
        dead(m),
    ensures
        model::alloc_scan(m, geo, gcr, want, size, at, traversed).0 == m,
    decreases geo.max - traversed,
{
    lemma_full(m, geo, at);
    let h = model::sector_head(m, at);
    let s = if h.store == want {
        model::sector_full(m, geo, at).1
    } else {
        h
    };
    if !(h.store == want && model::roomy(s, size, gcr)) {
        match model::next_sector(geo, s, traversed + geo.sec) {
            None => {},
            Some(a) => {
                if geo.sec > 0 && traversed < geo.max {
                    lemma_alloc(m, geo, gcr, want, size, a, traversed + geo.sec);
                }
            },
        }
    }
}

/// Finding room.
pub proof fn lemma_find_room(st: KvState, size: int)
    requires
        dead(st.m),
    ensures
        ({
            let st1 = model::find_room(st, size).0;
            st1 == (KvState { gc_request: st1.gc_request, ..st }) && (st.gc_request
                ==> st1.gc_request)
        }),
{
    reveal(model::find_room);
    lemma_alloc(
        st.m,
        st.geo,
        st.gc_request,
        SectorStoreStatus::Using,
        size,
        st.oldest,
        0,
    );
    lemma_alloc(
        st.m,
        st.geo,
        st.gc_request,
        SectorStoreStatus::Empty,
        size,
        st.oldest,
        0,
    );
}

proof fn lemma_find_in(m: Medium, geo: Geo, s: SecInfo, n: Node, key: Seq<u8>)
    requires
        dead(m),
    ensures
        model::find_in_sector(m, geo, s, n, key).0 == m,
    decreases s.at + geo.sec - n.at,
{
    lemma_read(m, geo, n.at);
    let n1 = model::read_node(m, geo, n);
    if !model::is_live(n1, key) {
        match model::next_node(m.bytes, geo, s, n1) {
            None => {},
            Some(a) => {
                if n.at < a <= s.at + geo.sec {
                    lemma_find_in(m, geo, s, Node { at: a, ..n1 }, key);
                }
            },
        }
    }
}

proof fn lemma_find_from(
    m: Medium,
    geo: Geo,
    key: Seq<u8>,
    at: int,
    traversed: int,
    n: Node,
)
    requires
        dead(m),
    ensures
        model::find_from(m, geo, key, at, traversed, n).0 == m,
    decreases geo.max - traversed,
{
    let s = model::sector_head(m, at);
    let n0 = Node { at: at + 16, ..n };
    lemma_find_in(m, geo, s, n0, key);
    let (m1, n1, found) = if model::has_nodes(s) {
        model::find_in_sector(m, geo, s, n0, key)
    } else {
        (m, n, false)
    };
    if !found {
        match model::next_sector(geo, s, traversed + geo.sec) {
            None => {},
            Some(a) => {
                if geo.sec > 0 && traversed < geo.max {
                    lemma_find_from(m, geo, key, a, traversed + geo.sec, n1);
                }
            },
        }
    }
}

/// Looking for a name.
pub proof fn lemma_find(st: KvState, key: Seq<u8>)
    requires
        dead(st.m),
    ensures
        model::find(st, key).0 == st.m,
{
    reveal(model::find);
    lemma_find_from(st.m, st.geo, key, st.oldest, 0, model::blank_node());
}

/// Marking a record.
pub proof fn lemma_delete(m: Medium, geo: Geo, at: int, complete: bool)
    requires
        dead(m),
    ensures
        model::delete_at(m, geo, at, complete).0 == m,
{
    reveal(model::delete_at);
}

/// Copying a record.
pub proof fn lemma_move_body(m: Medium, n: Node, s: SecInfo)
    requires
        dead(m),
    ensures
        model::move_body(m, n, s).0 == m,
{
    let m1 = model::note_use(m, s, n.len).0;
    assert(m1 == m);
    if n.len - 4 > 0 {
        let size = model::least(32, n.len - 4);
    }
}

/// Moving a record.
pub proof fn lemma_move(st: KvState, n: Node)
    requires
        dead(st.m),
        st.gc_request,
    ensures
        model::move_node(st, n).0 == st,
{
    reveal(model::move_node);
    lemma_delete(st.m, st.geo, n.at, false);
    lemma_find_room(st, n.len);
    let (st1, slot) = model::find_room(st, n.len);
    lemma_find(st1, n.name.subrange(0, n.name_len));
    match slot {
        Some(s) => {
            lemma_move_body(st.m, n, s);
        },
        None => {},
    }
    lemma_delete(st.m, st.geo, n.at, true);
}

/// Moving the records of a sector.
pub proof fn lemma_evacuate(st: KvState, s: SecInfo, n: Node)
    requires
        dead(st.m),
        st.gc_request,
    ensures
        model::evacuate(st, s, n) == st,
    decreases s.at + st.geo.sec - n.at,
{
    lemma_read(st.m, st.geo, n.at);
    let n1 = model::read_node(st.m, st.geo, n);
    lemma_move(st, n1);
    match model::next_node(st.m.bytes, st.geo, s, n1) {
        None => {},
        Some(a) => {
            if n.at < a <= s.at + st.geo.sec {
                lemma_evacuate(st, s, Node { at: a, ..n1 });
            }
        },
    }
}

/// Formatting a sector.
pub proof fn lemma_format(m: Medium, geo: Geo, at: int, combined: int)
    requires
        dead(m),
    ensures
        model::format(m, geo, at, combined).0 == m,
{
}

/// Collecting a sector.
pub proof fn lemma_collect(st: KvState, s: SecInfo, free: int, last: int)
    requires
        dead(st.m),
        st.gc_request,
    ensures
        ({
            let st1 = model::collect_sector(st, s, free, last).0;
            st1 == (KvState { oldest: st1.oldest, ..st })
        }),
{
    reveal(model::collect_sector);
    lemma_evacuate(st, s, Node { at: s.at + 16, ..model::blank_node() });
    lemma_format(st.m, st.geo, s.at, model::SECTOR_NOT_COMBINED as int);
    lemma_full(st.m, st.geo, last);
}

/// Collecting sectors.
pub proof fn lemma_collect_from(st: KvState, free: int, last: int, at: int, traversed: int)
    requires
        dead(st.m),
        st.gc_request,
    ensures
        ({
            let st1 = model::collect_from(st, free, last, at, traversed);
            st1 == (KvState { oldest: st1.oldest, ..st })
        }),
    decreases st.geo.max - traversed,
{
    let s = model::sector_head(st.m, at);
    lemma_collect(st, s, free, last);
    let (st1, last1, stop) = model::collect_sector(st, s, free, last);
    if !stop {
        match model::next_sector(st.geo, s, traversed + st.geo.sec) {
            None => {},
            Some(a) => {
                if st.geo.sec > 0 && traversed < st.geo.max {
                    lemma_collect_from(st1, free, last1, a, traversed + st.geo.sec);
                }
            },
        }
    }
}

/// Garbage collection.
pub proof fn lemma_gc(st: KvState, free: int)
    requires
        dead(st.m),
        st.gc_request,
    ensures
        model::gc(st, free).m == st.m,
{
    reveal(model::gc);
    let (n, last) = model::empty_sectors(st.m, st.geo, st.oldest, 0, 0, 0);
    lemma_collect_from(st, free, last, st.oldest, 0);
}

/// Finding room, collecting garbage if that is asked for.
proof fn lemma_new_room(st: KvState, size: int)
    requires
        dead(st.m),
    ensures
        model::new_room(st, size).0.m == st.m,
{
    reveal(model::new_room);
    lemma_find_room(st, size);
    let st1 = model::find_room(st, size).0;
    if st1.gc_request {
        lemma_gc(st1, size);
        lemma_find_room(model::gc(st1, size), size);
    }
}

/// Creating a record.
proof fn lemma_create(st: KvState, slot: Option<SecInfo>, name: Seq<u8>, value: Seq<u8>)
    requires
        dead(st.m),
    ensures
        model::create(st, slot, name, value).0.m == st.m,
{
    reveal(model::create_in);
    lemma_new_room(st, model::record_len(name, value));
}

/// Putting a value.
pub proof fn lemma_put_in(st: KvState, s: SecInfo, name: Seq<u8>, value: Seq<u8>)
    requires
        dead(st.m),
    ensures
        model::put_in(st, s, name, value).0.m == st.m,
{
    lemma_find(st, name);
    let (m2, old_node, found) = model::find(st, name);
    lemma_delete(st.m, st.geo, old_node.at, false);
    lemma_create(st, Some(s), name, value);
    lemma_delete(st.m, st.geo, old_node.at, true);
    let (m3, r3) = if found {
        model::delete_at(m2, st.geo, old_node.at, false)
    } else {
        (m2, Ok(()))
    };
    let (st4, r4) = match r3 {
        Err(e) => (KvState { m: m3, ..st }, Err(e)),
        Ok(_) => model::create(KvState { m: m3, ..st }, Some(s), name, value),
    };
    let (m5, r5) = if found && r4 is Ok {
        model::delete_at(st4.m, st.geo, old_node.at, true)
    } else {
        (st4.m, r4)
    };
    let st5 = KvState { m: m5, ..st4 };
    if st5.gc_request {
        lemma_gc(st5, model::record_len(name, value));
    }
}

} // verus!
