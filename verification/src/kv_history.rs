//! What the key-value database promises of a history of operations: every name reads as the
//! last operation on it that succeeded left it, checking the database passes, and opening it
//! again changes nothing.
use vstd::prelude::*;

use crate::db;
use crate::db::Geo;
use crate::error::Result;
use crate::kv_gc as gc;
use crate::kv_image as image;
use crate::kv_image::Sect;
use crate::kv_iter as iter;
use crate::kv_laws as laws;
use crate::kv_model as model;
use crate::kv_model::KvState;
use crate::kv_open as open;
use crate::storage::Medium;

verus! {

/// An operation that may change a database.
pub enum Op {
    Put(Seq<u8>, Seq<u8>),
    Remove(Seq<u8>),
    Reset,
}

/// The value that the defaults give a name.
pub open spec fn default_of(defaults: Seq<(Seq<u8>, Seq<u8>)>, k: Seq<u8>) -> Option<Seq<u8>> {
    if exists|i: int| 0 <= i < defaults.len() && (#[trigger] defaults[i]).0 == k {
        let i = choose|i: int| 0 <= i < defaults.len() && (#[trigger] defaults[i]).0 == k;
        Some(defaults[i].1)
    } else {
        None
    }
}

/// Whether the defaults of a database can be stored, or none of the operations resets it.
pub open spec fn can_reset(st: KvState, ops: Seq<Op>) -> bool {
    (model::defaults_ok(st.defaults) && open::storable(st.geo, st.defaults)) || forall|i: int|
        0 <= i < ops.len() ==> (#[trigger] ops[i]) !is Reset
}

/// The database after an operation, and what the operation reports.
pub open spec fn step(st: KvState, op: Op) -> (KvState, Result<()>) {
    match op {
        Op::Put(key, value) => model::set_value(st, key, value),
        Op::Remove(key) => model::delete(st, key),
        Op::Reset => model::set_defaults(st),
    }
}

/// The database after operations one by one.
pub open spec fn run(st: KvState, ops: Seq<Op>) -> KvState
    decreases ops.len(),
{
    if ops.len() == 0 {
        st
    } else {
        step(run(st, ops.drop_last()), ops.last()).0
    }
}

/// What the name `k` should read as after operations: as the last of them on that name that
/// succeeded left it.
pub open spec fn expected(st: KvState, ops: Seq<Op>, k: Seq<u8>) -> Option<Seq<u8>>
    decreases ops.len(),
{
    if ops.len() == 0 {
        model::lookup(st, k)
    } else {
        let before = expected(st, ops.drop_last(), k);
        let r = step(run(st, ops.drop_last()), ops.last()).1;
        match ops.last() {
            Op::Put(key, value) => if key == k && r is Ok {
                Some(value)
            } else {
                before
            },
            Op::Remove(key) => if key == k {
                None
            } else {
                before
            },
            Op::Reset => default_of(st.defaults, k),
        }
    }
}

/// One operation.
proof fn lemma_step(st: KvState, d: Map<int, Sect>, op: Op) -> (d1: Map<int, Sect>)
    requires
        laws::fair(st, d),
        op is Reset ==> model::defaults_ok(st.defaults) && open::storable(st.geo, st.defaults),
    ensures
        ({
            let (st1, r) = step(st, op);
            &&& laws::fair(st1, d1)
            &&& st1 == (KvState { m: st1.m, oldest: st1.oldest, ..st })
            &&& iter::all_sound(st.geo, d) ==> iter::all_sound(st.geo, d1)
            &&& gc::uncollected(st.geo, d) ==> gc::uncollected(st.geo, d1)
            &&& gc::accounted(st.geo, d) ==> gc::accounted(st.geo, d1)
            &&& forall|k: Seq<u8>| #[trigger] model::lookup(st1, k) == (match op {
                Op::Put(key, value) => if key == k && r is Ok {
                    Some(value)
                } else {
                    model::lookup(st, k)
                },
                Op::Remove(key) => if key == k {
                    None
                } else {
                    model::lookup(st, k)
                },
                Op::Reset => default_of(st.defaults, k),
            })
        }),
{
    match op {
        Op::Put(key, value) => laws::set_then_get(st, d, key, value),
        Op::Remove(key) => laws::delete_removes_the_name(st, d, key),
        Op::Reset => {
            let d1 = open::set_default_resets(st);
            let st1 = model::set_defaults(st).0;
            assert forall|k: Seq<u8>| #[trigger] model::lookup(st1, k) == default_of(
                st.defaults,
                k,
            ) by {
                lemma_default_of(st1, k);
            }
            d1
        },
    }
}

/// A name reads as the defaults say where all of them can be looked up, and nothing else.
proof fn lemma_default_of(st: KvState, k: Seq<u8>)
    requires
        forall|i: int|
            0 <= i < st.defaults.len() ==> model::lookup(st, (#[trigger] st.defaults[i]).0) == Some(
                st.defaults[i].1,
            ),
        (forall|i: int| 0 <= i < st.defaults.len() ==> (#[trigger] st.defaults[i]).0 != k)
            ==> model::lookup(st, k) is None,
    ensures
        model::lookup(st, k) == default_of(st.defaults, k),
{
}

/// Any history of setting and deleting names and resetting the database: every name then reads
/// as the last operation on it that succeeded left it, and where all records were sound they
/// still are, and checking the database passes. Where no garbage was lost none is.
pub proof fn history_decides_every_name(st: KvState, d: Map<int, Sect>, ops: Seq<Op>) -> (d1: Map<
    int,
    Sect,
>)
    requires
        laws::fair(st, d),
        can_reset(st, ops),
    ensures
        ({
            let st1 = run(st, ops);
            &&& laws::fair(st1, d1)
            &&& st1 == (KvState { m: st1.m, oldest: st1.oldest, ..st })
            &&& gc::uncollected(st.geo, d) ==> gc::uncollected(st.geo, d1)
            &&& gc::accounted(st.geo, d) ==> gc::accounted(st.geo, d1)
            &&& forall|k: Seq<u8>| #[trigger] model::lookup(st1, k) == expected(st, ops, k)
            &&& iter::all_sound(st.geo, d) ==> iter::all_sound(st.geo, d1) && model::check_from(
                st1.m,
                st1.geo,
                st1.oldest,
                0,
            ).1 is Ok
        }),
    decreases ops.len(),
{
    let st1 = run(st, ops);
    let d1 = if ops.len() == 0 {
        d
    } else {
        let first = ops.drop_last();
        assert(can_reset(st, first)) by {
            if forall|i: int| 0 <= i < ops.len() ==> (#[trigger] ops[i]) !is Reset {
                assert forall|i: int| 0 <= i < first.len() implies (#[trigger] first[i]) !is Reset by {
                    assert(first[i] == ops[i]);
                }
            }
        }
        assert(ops.last() == ops[ops.len() - 1]);
        let d0 = history_decides_every_name(st, d, first);
        let d1 = lemma_step(run(st, first), d0, ops.last());
        assert forall|k: Seq<u8>| #[trigger] model::lookup(st1, k) == expected(st, ops, k) by {
            assert(model::lookup(run(st, first), k) == expected(st, first, k));
        }
        d1
    };
    iter::check_passes_where_all_is_sound(st1, d1);
    d1
}

/// Opening a database again that was opened on a medium without a single sector header and
/// changed since by setting and deleting names and by resetting it: nothing is written and
/// nothing erased, not even the defaults, and every name reads as the last operation on it
/// that succeeded left it.
pub proof fn reopening_after_a_history_changes_nothing(
    m: Medium,
    geo: Geo,
    defaults: Seq<(Seq<u8>, Seq<u8>)>,
    ops: Seq<Op>,
    again: Seq<(Seq<u8>, Seq<u8>)>,
    fixed: bool,
)
    requires
        model::geo_ok(geo),
        m.budget is None,
        m.clears,
        db::whole_sectors(geo, m.erases),
        m.flushed.len() == m.bytes.len(),
        geo.max <= m.bytes.len() <= 0xFFFF_FFFF,
        forall|a: int| db::is_sector(geo, a) ==> !(#[trigger] model::sector_head(m, a)).check_ok,
        model::defaults_ok(defaults),
        open::storable(geo, defaults),
    ensures
        ({
            let st = model::open_db(m, geo, defaults, false).0;
            let st1 = run(st, ops);
            let (st2, r) = model::open_db(st1.m, geo, again, fixed);
            &&& r is Ok
            &&& st2.m == st1.m
            &&& forall|k: Seq<u8>| #[trigger] model::lookup(st2, k) == model::lookup(st1, k)
            &&& forall|k: Seq<u8>| #[trigger] model::lookup(st2, k) == expected(st, ops, k)
        }),
{
    let d = open::open_on_garbage(m, geo, defaults);
    let st = model::open_db(m, geo, defaults, false).0;
    let d1 = history_decides_every_name(st, d, ops);
    let st1 = run(st, ops);
    assert(image::settled(geo, d1));
    open::reopen_keeps_contents(st1, d1, again, fixed);
    let st2 = model::open_db(st1.m, geo, again, fixed).0;
    assert forall|k: Seq<u8>| #[trigger] model::lookup(st2, k) == expected(st, ops, k) by {
        assert(model::lookup(st2, k) == model::lookup(st1, k));
    }
}

} // verus!
