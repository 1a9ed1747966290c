//! Changing an image of the key-value database: what the writes of `kv_model` do to the
//! records and sectors that a medium holds.
use vstd::prelude::*;

use crate::codec;
use crate::db;
use crate::db::Geo;
use crate::def;
use crate::def::{KvStatus, SectorDirtyStatus, SectorStoreStatus, KV_NAME_MAX};
use crate::error::FdbError;
use crate::flash;
use crate::flushing;
use crate::kv_image as image;
use crate::kv_image::{Rec, Sect};
use crate::kv_lookup as lookup;
use crate::kv_model as model;
use crate::kv_model::{KvState, Node, SecInfo, SECTOR_NOT_COMBINED, SECTOR_MAGIC_WORD};
use crate::status;
use crate::storage::Medium;

verus! {

// ------------------------------------------------------------------ single statuses

/// The sector `s` with another status of its `i`th record.
pub open spec fn with_status(s: Sect, i: int, st: KvStatus) -> Sect {
    Sect { recs: s.recs.update(i, Rec { status: st, ..s.recs[i] }), ..s }
}

/// A sound record with another status.
proof fn lemma_restatus(b1: Seq<u8>, b2: Seq<u8>, a: int, r: Rec, st: KvStatus)
    requires
        r.sound,
        image::sound_at(b1, a, r),
        b2.len() == b1.len(),
        b2[a] == status::status_byte(def::kv_index_of(st)),
        forall|j: int| 0 <= j < b1.len() && j != a ==> #[trigger] b2[j] == b1[j],
    ensures
        image::sound_at(b2, a, Rec { status: st, ..r }),
{
    let nl = r.name.len() as int;
    assert(b2.subrange(a + 4, a + 24) =~= b1.subrange(a + 4, a + 24));
    assert(b2.subrange(a + 24, a + 24 + nl) =~= b1.subrange(a + 24, a + 24 + nl));
    assert(b2.subrange(a + 24 + nl, a + image::body(r)) =~= b1.subrange(
        a + 24 + nl,
        a + image::body(r),
    ));
}

/// A sector in which one record is replaced by another of the same length.
#[verifier::rlimit(40)]
#[verifier::spinoff_prover]
pub proof fn lemma_replace_rec(
    b1: Seq<u8>,
    b2: Seq<u8>,
    geo: Geo,
    at: int,
    s: Sect,
    i: int,
    r2: Rec,
)
    requires
        geo.sec >= 16,
        image::sector_at(b1, geo, at, s),
        0 <= i < s.recs.len(),
        r2.sound == s.recs[i].sound,
        r2.torn_len == s.recs[i].torn_len,
        image::size(r2) == image::size(s.recs[i]),
        image::rec_at(b2, geo, image::place(at, s.recs, i), r2),
        b2.len() == b1.len(),
        forall|j: int|
            0 <= j < b1.len() && !(image::place(at, s.recs, i) <= j < image::place(at, s.recs, i)
                + image::size(r2)) ==> #[trigger] b2[j] == b1[j],
    ensures
        image::sector_at(b2, geo, at, Sect { recs: s.recs.update(i, r2), ..s }),
{
    let s2 = Sect { recs: s.recs.update(i, r2), ..s };
    let a = image::place(at, s.recs, i);
    image::lemma_place(b1, geo, at, s, i);
    image::lemma_open_sector(b1, geo, at, s);
    assert forall|k: int| 0 <= k <= s.recs.len() implies #[trigger] image::reach(s2.recs, k)
        == image::reach(s.recs, k) by {
        image::lemma_reach_same(s2.recs, s.recs, k);
    }
    assert forall|k: int| 0 <= k < s2.recs.len() implies image::rec_at(
        b2,
        geo,
        image::place(at, s2.recs, k),
        #[trigger] s2.recs[k],
    ) by {
        let c = image::place(at, s.recs, k);
        assert(image::reach(s2.recs, k) == image::reach(s.recs, k));
        image::lemma_place(b1, geo, at, s, k);
        if k < i {
            image::lemma_reach(s.recs, k, i);
            image::lemma_rec_frame(b1, b2, geo, c, s.recs[k]);
        } else if k > i {
            image::lemma_reach(s.recs, i, k);
            image::lemma_rec_frame(b1, b2, geo, c, s.recs[k]);
        }
    }
    assert(image::span(s2.recs) == image::span(s.recs)) by {
        assert(image::reach(s2.recs, s.recs.len() as int) == image::reach(
            s.recs,
            s.recs.len() as int,
        ));
    }
    assert(codec::le32(b2, at + 4) == codec::le32(b1, at + 4));
    assert(codec::le32(b2, at + 8) == codec::le32(b1, at + 8));
    assert(image::sect_ok(geo, s2)) by {
        assert forall|k: int| 0 < k < s2.recs.len() && !(#[trigger] s2.recs[k]).sound implies
            s2.recs[k].torn_len > 24 by {
            assert(s.recs[k].sound == s2.recs[k].sound);
        }
    }
    reveal(image::sector_at);
}

/// Programming the status of a sound record.
pub proof fn lemma_put_rec_status(
    m: Medium,
    geo: Geo,
    d: Map<int, Sect>,
    at: int,
    i: int,
    st: KvStatus,
    sync: bool,
)
    requires
        image::holds_image(m, geo, d),
        m.powered(),
        db::is_sector(geo, at),
        0 <= i < d[at].recs.len(),
        d[at].recs[i].sound,
        st != KvStatus::Unused,
        def::kv_index_of(d[at].recs[i].status) <= def::kv_index_of(st),
    ensures
        ({
            let a = image::place(at, d[at].recs, i);
            let m1 = flash::put_status(m, a, def::kv_index_of(st), sync);
            &&& image::holds_image(m1, geo, d.insert(at, with_status(d[at], i, st)))
            &&& m1.bytes.len() == m.bytes.len()
            &&& m1.budget == m.spend()
            &&& flash::put_status_result(m, a, def::kv_index_of(st)) == Ok::<(), FdbError>(())
        }),
{
    let s = d[at];
    let a = image::place(at, s.recs, i);
    let idx = def::kv_index_of(st);
    let b1 = m.bytes;
    assert(image::sector_at(b1, geo, at, s));
    image::lemma_place(b1, geo, at, s, i);
    let m1 = flash::put_status(m, a, idx, sync);
    let b2 = m1.bytes;
    flash::lemma_clears_status(m, a, def::kv_index_of(s.recs[i].status), idx);
    assert(status::status_place(idx) == 0);
    assert(m.accepts(a, 1));
    assert(b2.len() == b1.len());
    assert(b2[a] == status::status_byte(idx));
    assert forall|j: int| 0 <= j < b1.len() && j != a implies #[trigger] b2[j] == b1[j] by {}
    lemma_restatus(b1, b2, a, s.recs[i], st);
    lemma_replace_rec(b1, b2, geo, at, s, i, Rec { status: st, ..s.recs[i] });
    image::lemma_image_frame(b1, b2, geo, d, at, with_status(s, i, st));
}

/// Programming the dirty status of a sector with records.
pub proof fn lemma_put_dirty(
    m: Medium,
    geo: Geo,
    d: Map<int, Sect>,
    at: int,
    dv: SectorDirtyStatus,
)
    requires
        image::holds_image(m, geo, d),
        m.powered(),
        db::is_sector(geo, at),
        d[at].recs.len() > 0,
        dv != SectorDirtyStatus::Unused,
        def::dirty_index_of(d[at].dirty) <= def::dirty_index_of(dv),
    ensures
        ({
            let m1 = flash::put_status(m, at + 1, def::dirty_index_of(dv), true);
            &&& image::holds_image(m1, geo, d.insert(at, (Sect { dirty: dv, ..d[at] })))
            &&& m1.bytes.len() == m.bytes.len()
            &&& m1.budget == m.spend()
            &&& flash::put_status_result(m, at + 1, def::dirty_index_of(dv)) == Ok::<
                (),
                FdbError,
            >(())
        }),
{
    let s = d[at];
    let s2 = Sect { dirty: dv, ..s };
    let idx = def::dirty_index_of(dv);
    let b1 = m.bytes;
    assert(image::sector_at(b1, geo, at, s));
    image::lemma_open_sector(b1, geo, at, s);
    let m1 = flash::put_status(m, at + 1, idx, true);
    let b2 = m1.bytes;
    flash::lemma_clears_status(m, at + 1, def::dirty_index_of(s.dirty), idx);
    assert(status::status_place(idx) == 0);
    assert(m.accepts(at + 1, 1));
    assert forall|j: int| 0 <= j < b1.len() && j != at + 1 implies #[trigger] b2[j] == b1[j] by {}
    assert(image::sector_at(b2, geo, at, s2)) by {
        assert forall|k: int| 0 <= k < s2.recs.len() implies image::rec_at(
            b2,
            geo,
            image::place(at, s2.recs, k),
            #[trigger] s2.recs[k],
        ) by {
            image::lemma_place(b1, geo, at, s, k);
            image::lemma_rec_frame(b1, b2, geo, image::place(at, s.recs, k), s.recs[k]);
        }
        assert(codec::le32(b2, at + 4) == codec::le32(b1, at + 4));
        assert(codec::le32(b2, at + 8) == codec::le32(b1, at + 8));
        reveal(image::sector_at);
    }
    image::lemma_image_frame(b1, b2, geo, d, at, s2);
}

/// The dirty status of a sector once a record of it was deleted.
pub open spec fn soiled(dv: SectorDirtyStatus) -> SectorDirtyStatus {
    if dv == SectorDirtyStatus::False {
        SectorDirtyStatus::True
    } else {
        dv
    }
}

/// The sector `s` once its `i`th record was marked with `st`.
pub open spec fn struck(s: Sect, i: int, st: KvStatus) -> Sect {
    Sect { dirty: soiled(s.dirty), ..with_status(s, i, st) }
}

/// The status of a record that is about to be deleted, or deleted.
pub open spec fn gone(complete: bool) -> KvStatus {
    if complete {
        KvStatus::Deleted
    } else {
        KvStatus::PreDelete
    }
}

/// The place of the dirty status of the sector that an address lies in.
pub proof fn lemma_dirty_place(geo: Geo, at: int, a: int)
    requires
        geo.sec > 0,
        at % geo.sec == 0,
        at <= a < at + geo.sec,
    ensures
        model::dirty_place(geo, a) == at + 1,
{
    let k = a - at;
    vstd::arithmetic::div_mod::lemma_add_mod_noop(at, k, geo.sec);
    vstd::arithmetic::div_mod::lemma_small_mod(k as nat, geo.sec as nat);
    assert((0 + k) % geo.sec == k);
}

/// The dirty status that is read of a sector.
pub proof fn lemma_dirty_read(m: Medium, geo: Geo, d: Map<int, Sect>, at: int)
    requires
        image::holds_image(m, geo, d),
        db::is_sector(geo, at),
    ensures
        flash::status_at(m, at + 1, 4) == def::dirty_index_of(d[at].dirty),
{
    assert(image::sector_at(m.bytes, geo, at, d[at]));
    image::lemma_open_sector(m.bytes, geo, at, d[at]);
    let idx = def::dirty_index_of(d[at].dirty);
    assert(m.fetch(at + 1, flash::erased(1)) =~= seq![status::status_byte(idx)]);
    status::status_round_trip_one_byte(idx, 4);
}

/// Marking a record as about to be deleted, or as deleted.
pub proof fn lemma_delete_at(
    m: Medium,
    geo: Geo,
    d: Map<int, Sect>,
    at: int,
    i: int,
    complete: bool,
)
    requires
        image::holds_image(m, geo, d),
        m.budget is None,
        db::is_sector(geo, at),
        0 <= i < d[at].recs.len(),
        d[at].recs[i].sound,
        def::kv_index_of(d[at].recs[i].status) <= def::kv_index_of(gone(complete)),
    ensures
        ({
            let (m1, r) = model::delete_at(
                m,
                geo,
                image::place(at, d[at].recs, i),
                complete,
            );
            &&& image::holds_image(m1, geo, d.insert(at, struck(d[at], i, gone(complete))))
            &&& m1.bytes.len() == m.bytes.len()
            &&& m1.budget is None
            &&& r == Ok::<(), FdbError>(())
            &&& complete ==> flushing::flushed_at(m1, image::place(at, d[at].recs, i))
            &&& forall|x: int|
                0 <= x < m.bytes.len() && x != at + 1 && x != image::place(at, d[at].recs, i)
                    ==> m1.flushed[x] == m.flushed[x] && #[trigger] m1.bytes[x] == m.bytes[x]
        }),
{
    reveal(model::delete_at);
    let a = image::place(at, d[at].recs, i);
    let st = gone(complete);
    assert(image::sector_at(m.bytes, geo, at, d[at]));
    image::lemma_place(m.bytes, geo, at, d[at], i);
    lemma_put_rec_status(m, geo, d, at, i, st, complete);
    let m1 = flash::put_status(m, a, def::kv_index_of(st), complete);
    let d1 = d.insert(at, with_status(d[at], i, st));
    lemma_dirty_place(geo, at, a);
    lemma_dirty_read(m1, geo, d1, at);
    if d[at].dirty == SectorDirtyStatus::False {
        lemma_put_dirty(m1, geo, d1, at, SectorDirtyStatus::True);
        assert(d1.insert(at, Sect { dirty: SectorDirtyStatus::True, ..d1[at] }) =~= d.insert(
            at,
            struck(d[at], i, st),
        ));
    } else {
        assert(d1[at] == struck(d[at], i, st));
    }
}

// ----------------------------------------------------------------- appending a record

/// The bytes of a live record.
pub open spec fn rec_bytes(name: Seq<u8>, value: Seq<u8>) -> Seq<u8> {
    seq![status::status_byte(2), 0xFFu8, 0xFFu8, 0xFFu8] + model::record_header(
        name,
        value,
    ).subrange(4, 24) + name + value
}

/// A live record with this name and value.
pub open spec fn live_rec(name: Seq<u8>, value: Seq<u8>) -> Rec {
    Rec { sound: true, name, value, status: KvStatus::Write, torn_len: 0, pad: 0 }
}

pub proof fn lemma_rec_bytes(name: Seq<u8>, value: Seq<u8>)
    ensures
        ({
            let b = rec_bytes(name, value);
            let nl = name.len() as int;
            &&& b.len() == model::record_len(name, value)
            &&& b[0] == status::status_byte(2)
            &&& b[1] == 0xFF
            &&& b[2] == 0xFF
            &&& b[3] == 0xFF
            &&& b.subrange(4, 24) == model::record_header(name, value).subrange(4, 24)
            &&& b.subrange(24, 24 + nl) == name
            &&& b.subrange(24 + nl, b.len() as int) == value
        }),
{
    image::lemma_record_header(name, value);
    let h = model::record_header(name, value).subrange(4, 24);
    let first = seq![status::status_byte(2), 0xFFu8, 0xFFu8, 0xFFu8];
    let b = rec_bytes(name, value);
    let nl = name.len() as int;
    assert(h.len() == 20);
    assert(b.subrange(4, 24) =~= h);
    assert(b.subrange(24, 24 + nl) =~= name);
    assert(b.subrange(24 + nl, b.len() as int) =~= value);
}

/// The bytes of a live record make it.
proof fn lemma_rec_made(b1: Seq<u8>, a: int, name: Seq<u8>, value: Seq<u8>)
    requires
        name.len() <= KV_NAME_MAX,
        model::record_len(name, value) <= 0xFFFF_FFFF,
        0 <= a,
        a + model::record_len(name, value) <= b1.len(),
    ensures
        image::sound_at(
            codec::splice(b1, a, rec_bytes(name, value)),
            a,
            live_rec(name, value),
        ),
{
    lemma_rec_bytes(name, value);
    let d = rec_bytes(name, value);
    let b = codec::splice(b1, a, d);
    let nl = name.len() as int;
    let len = model::record_len(name, value);
    assert(b[a] == d[0]);
    assert(b[a + 1] == d[1]);
    assert(b[a + 2] == d[2]);
    assert(b[a + 3] == d[3]);
    assert(b.subrange(a + 4, a + 24) =~= d.subrange(4, 24));
    assert(b.subrange(a + 24, a + 24 + nl) =~= d.subrange(24, 24 + nl));
    assert(b.subrange(a + 24 + nl, a + len) =~= d.subrange(24 + nl, len));
}

/// The sector `s` with one more record.
pub open spec fn appended(s: Sect, r: Rec) -> Sect {
    Sect {
        store: if s.store == SectorStoreStatus::Empty {
            SectorStoreStatus::Using
        } else {
            s.store
        },
        recs: s.recs.push(r),
        ..s
    }
}

/// The medium with a live record behind the records of the sector `s` at `at`, which
/// counts as in use.
pub open spec fn with_record(b1: Seq<u8>, at: int, s: Sect, name: Seq<u8>, value: Seq<u8>) -> Seq<u8> {
    let b = codec::splice(
        b1,
        at + 16 + image::span(s.recs),
        rec_bytes(name, value),
    );
    if s.store == SectorStoreStatus::Empty {
        b.update(at, status::status_byte(2))
    } else {
        b
    }
}

/// A record behind the records of a sector is one more record of it.
pub proof fn lemma_append(
    b1: Seq<u8>,
    geo: Geo,
    d: Map<int, Sect>,
    at: int,
    name: Seq<u8>,
    value: Seq<u8>,
)
    requires
        model::geo_ok(geo),
        image::image(b1, geo, d),
        db::is_sector(geo, at),
        name.len() <= KV_NAME_MAX,
        16 + image::span(d[at].recs) + model::record_len(name, value) + 88 < geo.sec,
    ensures
        with_record(b1, at, d[at], name, value).len() == b1.len(),
        image::image(
            with_record(b1, at, d[at], name, value),
            geo,
            d.insert(at, appended(d[at], live_rec(name, value))),
        ),
{
    let s = d[at];
    let r = live_rec(name, value);
    let s2 = appended(s, r);
    let len = model::record_len(name, value);
    let a = at + 16 + image::span(s.recs);
    let mid = codec::splice(b1, a, rec_bytes(name, value));
    let b2 = with_record(b1, at, s, name, value);
    assert(image::sector_at(b1, geo, at, s));
    image::lemma_open_sector(b1, geo, at, s);
    image::lemma_reach(s.recs, 0, s.recs.len() as int);
    db::lemma_geo(geo);
    lemma_rec_bytes(name, value);
    assert(b2.len() == b1.len());
    assert forall|j: int| 0 <= j < b1.len() && !(a <= j < a + len) && j != at implies
        #[trigger] b2[j] == b1[j] by {}
    lemma_rec_made(b1, a, name, value);
    assert(image::rec_at(mid, geo, a, r));
    assert(image::same_on(mid, b2, a, a + len));
    image::lemma_rec_frame(mid, b2, geo, a, r);
    assert forall|k: int| 0 <= k <= s.recs.len() implies #[trigger] image::reach(s2.recs, k)
        == image::reach(s.recs, k) by {
        image::lemma_reach_same(s2.recs, s.recs, k);
    }
    assert(image::reach(s2.recs, s.recs.len() as int) == image::span(s.recs));
    assert(image::span(s2.recs) == image::span(s.recs) + len);
    assert(image::sector_at(b2, geo, at, s2)) by {
        assert forall|k: int| 0 <= k < s2.recs.len() implies image::rec_at(
            b2,
            geo,
            image::place(at, s2.recs, k),
            #[trigger] s2.recs[k],
        ) by {
            assert(image::reach(s2.recs, k) == image::reach(s.recs, k));
            if k < s.recs.len() {
                image::lemma_place(b1, geo, at, s, k);
                image::lemma_rec_frame(b1, b2, geo, image::place(at, s.recs, k), s.recs[k]);
            }
        }
        assert(codec::le32(b2, at + 4) == codec::le32(b1, at + 4));
        assert(codec::le32(b2, at + 8) == codec::le32(b1, at + 8));
        assert(image::sect_ok(geo, s2)) by {
            assert forall|k: int| 0 < k < s2.recs.len() && !(#[trigger] s2.recs[k]).sound implies
                s2.recs[k].torn_len > 24 by {
                assert(k < s.recs.len());
                assert(!s.recs[k].sound);
            }
        }
        reveal(image::sector_at);
    }
    image::lemma_image_frame(b1, b2, geo, d, at, s2);
}

/// What noting the use of a sector with room does: an empty one becomes one in use.
pub proof fn lemma_note_use(m: Medium, geo: Geo, d: Map<int, Sect>, at: int, len: int)
    requires
        image::holds_image(m, geo, d),
        m.budget is None,
        db::is_sector(geo, at),
        d[at].store == SectorStoreStatus::Empty || d[at].store == SectorStoreStatus::Using,
        16 + image::span(d[at].recs) + len + 88 < geo.sec,
        len >= 0,
    ensures
        ({
            let (m1, r) = model::note_use(m, lookup::full_info(geo, at, d[at]), len);
            &&& r == Ok::<bool, FdbError>(false)
            &&& m1.budget is None
            &&& m1.clears
            &&& m1.bytes == (if d[at].store == SectorStoreStatus::Empty {
                m.bytes.update(at, status::status_byte(2))
            } else {
                m.bytes
            })
        }),
{
    assert(image::sector_at(m.bytes, geo, at, d[at]));
    image::lemma_open_sector(m.bytes, geo, at, d[at]);
    if d[at].store == SectorStoreStatus::Empty {
        flash::lemma_clears_status(m, at, 1, 2);
        assert(m.accepts(at, 1));
        assert(codec::splice(m.bytes, at, seq![status::status_byte(2)]) =~= m.bytes.update(
            at,
            status::status_byte(2),
        ));
    }
}

/// Writing a record to an erased place.
pub proof fn lemma_write_record(m: Medium, a: int, name: Seq<u8>, value: Seq<u8>)
    requires
        m.budget is None,
        0 <= a,
        a + model::record_len(name, value) <= m.bytes.len(),
        forall|j: int|
            a <= j < a + model::record_len(name, value) ==> #[trigger] m.bytes[j] == 0xFF,
    ensures
        ({
            let (m1, r) = model::write_record(m, a, name, value);
            &&& r == Ok::<(), FdbError>(())
            &&& m1.budget is None
            &&& m1.clears == m.clears
            &&& m1.erases == m.erases
            &&& m.flushed.len() == m.bytes.len() ==> m1.flushed.len() == m1.bytes.len()
            &&& m1.bytes == codec::splice(m.bytes, a, rec_bytes(name, value))
        }),
{
    image::lemma_record_header(name, value);
    lemma_rec_bytes(name, value);
    let h = model::record_header(name, value);
    let nl = name.len() as int;
    let m1 = flash::put_status(m, a, 1, false);
    flash::lemma_clears_erased(m, a, seq![status::status_byte(1)]);
    assert(m1.bytes.len() == m.bytes.len());
    let m2 = m1.program(a + 4, h.subrange(4, 24), false);
    flash::lemma_clears_erased(m1, a + 4, h.subrange(4, 24));
    assert(m2.bytes.len() == m.bytes.len());
    let m3 = flash::put_data(m2, a + 24, name);
    flash::lemma_clears_erased(m2, a + 24, name);
    assert(m3.bytes =~= codec::splice(m2.bytes, a + 24, name));
    let m4 = flash::put_data(m3, a + 24 + nl, value);
    flash::lemma_clears_erased(m3, a + 24 + nl, value);
    assert(m4.bytes =~= codec::splice(m3.bytes, a + 24 + nl, value));
    assert(m4.bytes[a] == status::status_byte(1));
    flash::lemma_clears_status(m4, a, 1, 2);
    let m5 = flash::put_status(m4, a, 2, true);
    let want = codec::splice(m.bytes, a, rec_bytes(name, value));
    let b = rec_bytes(name, value);
    assert forall|j: int| 0 <= j < m.bytes.len() implies m5.bytes[j] == want[j] by {
        if a + 4 <= j < a + 24 {
            assert(b.subrange(4, 24)[j - a - 4] == b[j - a]);
        } else if a + 24 <= j < a + 24 + nl {
            assert(b.subrange(24, 24 + nl)[j - a - 24] == b[j - a]);
        } else if a + 24 + nl <= j < a + b.len() {
            assert(b.subrange(24 + nl, b.len() as int)[j - a - 24 - nl] == b[j - a]);
        }
    }
    assert(m5.bytes =~= want);
}

/// Creating a record in a sector with room.
pub proof fn lemma_create_in(
    st: KvState,
    d: Map<int, Sect>,
    at: int,
    info: SecInfo,
    name: Seq<u8>,
    value: Seq<u8>,
)
    requires
        image::holds_image(st.m, st.geo, d),
        st.m.budget is None,
        db::is_sector(st.geo, at),
        d[at].store == SectorStoreStatus::Empty || d[at].store == SectorStoreStatus::Using,
        info.store == d[at].store,
        info.at == at,
        info.remain == st.geo.sec - 16 - image::span(d[at].recs),
        info.empty == at + 16 + image::span(d[at].recs),
        name.len() <= KV_NAME_MAX,
        16 + image::span(d[at].recs) + model::record_len(name, value) + 88 < st.geo.sec,
    ensures
        ({
            let (st1, r) = model::create_in(st, info, name, value);
            &&& r == Ok::<(), FdbError>(())
            &&& st1 == (KvState { m: st1.m, ..st })
            &&& st1.m.budget is None
            &&& st1.m.bytes.len() == st.m.bytes.len()
            &&& image::holds_image(
                st1.m,
                st.geo,
                d.insert(at, appended(d[at], live_rec(name, value))),
            )
            &&& flushing::flushed_at(st1.m, info.empty)
            &&& st1.m.bytes == with_record(st.m.bytes, at, d[at], name, value)
        }),
{
    reveal(model::create_in);
    let geo = st.geo;
    let s = d[at];
    let len = model::record_len(name, value);
    let m = st.m;
    lemma_note_use(m, geo, d, at, len);
    let full = lookup::full_info(geo, at, s);
    assert(model::note_use(m, info, len) == model::note_use(m, full, len));
    let (m1, r1) = model::note_use(m, info, len);
    let a = info.empty;
    assert(image::sector_at(m.bytes, geo, at, s));
    image::lemma_open_sector(m.bytes, geo, at, s);
    image::lemma_reach(s.recs, 0, s.recs.len() as int);
    lemma_write_record(m1, a, name, value);
    let (m2, r2) = model::write_record(m1, a, name, value);
    flushing::a_written_record_is_live_for_good(m1, a, name, value);
    lemma_append(m.bytes, geo, d, at, name, value);
    lemma_rec_bytes(name, value);
    assert(m2.bytes =~= with_record(m.bytes, at, s, name, value));
}

// --------------------------------------------------------------------- moving a record

/// Copying bytes to a place that does not overlap them.
proof fn lemma_copy(m: Medium, src: int, dst: int, total: int, done: int, buf: Seq<u8>)
    requires
        m.budget is None,
        0 <= done <= total,
        0 <= src,
        src + total <= m.bytes.len(),
        0 <= dst,
        dst + total <= m.bytes.len(),
        src + total <= dst || dst + total <= src,
        buf.len() == 32,
        forall|j: int| dst + done <= j < dst + total ==> #[trigger] m.bytes[j] == 0xFF,
    ensures
        ({
            let (m1, r) = model::copy_data(m, src, dst, total, done, buf);
            &&& r == Ok::<(), FdbError>(())
            &&& m1.budget is None
            &&& m1.clears == m.clears
            &&& m1.erases == m.erases
            &&& m.flushed.len() == m.bytes.len() ==> m1.flushed.len() == m1.bytes.len()
            &&& m1.bytes == codec::splice(
                m.bytes,
                dst + done,
                m.bytes.subrange(src + done, src + total),
            )
        }),
    decreases total - done,
{
    if done >= total {
        assert(codec::splice(m.bytes, dst + done, m.bytes.subrange(src + done, src + total))
            =~= m.bytes);
    } else {
        let size = model::least(32, total - done);
        let next = model::fetch_head(m, src + done, buf, size);
        let piece = m.bytes.subrange(src + done, src + done + size);
        assert(next.subrange(0, size) =~= piece);
        let m1 = m.program(dst + done, piece, true);
        flash::lemma_clears_erased(m, dst + done, piece);
        assert(m.accepts(dst + done, size));
        lemma_copy(m1, src, dst, total, done + size, next);
        let m2 = model::copy_data(m1, src, dst, total, done + size, next).0;
        let rest = m1.bytes.subrange(src + done + size, src + total);
        assert(rest =~= m.bytes.subrange(src + done + size, src + total));
        let want = codec::splice(
            m.bytes,
            dst + done,
            m.bytes.subrange(src + done, src + total),
        );
        assert forall|j: int| 0 <= j < m.bytes.len() implies m2.bytes[j] == want[j] by {}
        assert(m2.bytes =~= want);
    }
}

/// The bytes of a sound record behind its status.
pub proof fn lemma_sound_bytes(bytes: Seq<u8>, a: int, r: Rec)
    requires
        r.sound,
        image::sound_at(bytes, a, r),
    ensures
        forall|k: int|
            4 <= k < image::body(r) ==> #[trigger] rec_bytes(r.name, r.value)[k] == bytes[a + k],
{
    lemma_rec_bytes(r.name, r.value);
    let b = rec_bytes(r.name, r.value);
    let nl = r.name.len() as int;
    let len = image::body(r);
    assert forall|k: int| 4 <= k < len implies #[trigger] b[k] == bytes[a + k] by {
        if k < 24 {
            assert(bytes.subrange(a + 4, a + 24)[k - 4] == b.subrange(4, 24)[k - 4]);
        } else if k < 24 + nl {
            assert(bytes.subrange(a + 24, a + 24 + nl)[k - 24] == b.subrange(24, 24 + nl)[k
                - 24]);
        } else {
            assert(bytes.subrange(a + 24 + nl, a + len)[k - 24 - nl] == b.subrange(
                24 + nl,
                len,
            )[k - 24 - nl]);
        }
    }
}

/// Copying a record gives a live record with its name and value.
#[verifier::rlimit(60)]
#[verifier::spinoff_prover]
proof fn lemma_copy_record(m: Medium, src: int, a: int, r: Rec)
    requires
        m.budget is None,
        r.sound,
        image::sound_at(m.bytes, src, r),
        0 <= a,
        a + image::body(r) <= m.bytes.len(),
        src + image::body(r) <= a || a + image::body(r) <= src,
        forall|j: int| a <= j < a + image::body(r) ==> #[trigger] m.bytes[j] == 0xFF,
    ensures
        ({
            let len = image::body(r);
            let m1 = flash::put_status(m, a, 1, false);
            let (m2, r2) = model::copy_data(m1, src + 4, a + 4, len - 4, 0, flash::zeros(32));
            let m3 = flash::put_status(m2, a, 2, true);
            &&& flash::put_status_result(m, a, 1) is Ok
            &&& r2 == Ok::<(), FdbError>(())
            &&& flash::put_status_result(m2, a, 2) is Ok
            &&& m3.budget is None
            &&& m3.clears == m.clears
            &&& m3.erases == m.erases
            &&& m.flushed.len() == m.bytes.len() ==> m3.flushed.len() == m3.bytes.len()
            &&& m3.bytes == codec::splice(m.bytes, a, rec_bytes(r.name, r.value))
        }),
{
    let len = image::body(r);
    lemma_rec_bytes(r.name, r.value);
    lemma_sound_bytes(m.bytes, src, r);
    let b = rec_bytes(r.name, r.value);
    let m1 = flash::put_status(m, a, 1, false);
    flash::lemma_clears_erased(m, a, seq![status::status_byte(1)]);
    assert(m.accepts(a, 1));
    assert(m1.bytes.len() == m.bytes.len());
    lemma_copy(m1, src + 4, a + 4, len - 4, 0, flash::zeros(32));
    let (m2, r2) = model::copy_data(m1, src + 4, a + 4, len - 4, 0, flash::zeros(32));
    let m3 = flash::put_status(m2, a, 2, true);
    assert(m2.bytes[a] == status::status_byte(1));
    flash::lemma_clears_status(m2, a, 1, 2);
    assert(m2.accepts(a, 1));
    let want = codec::splice(m.bytes, a, b);
    assert forall|j: int| 0 <= j < m.bytes.len() implies m3.bytes[j] == want[j] by {
        if a + 4 <= j < a + len {
            assert(m2.bytes[j] == m1.bytes.subrange(src + 4, src + len)[j - a - 4]);
            assert(b[j - a] == m.bytes[src + (j - a)]);
        }
    }
    assert(m3.bytes =~= want);
}

/// Copying a sound record to a sector with room.
pub proof fn lemma_move_body(
    m: Medium,
    geo: Geo,
    d: Map<int, Sect>,
    from: int,
    i: int,
    at: int,
    info: SecInfo,
    n: Node,
)
    requires
        image::holds_image(m, geo, d),
        m.budget is None,
        db::is_sector(geo, from),
        db::is_sector(geo, at),
        0 <= i < d[from].recs.len(),
        d[from].recs[i].sound,
        n.at == image::place(from, d[from].recs, i),
        n.len == image::body(d[from].recs[i]),
        d[at].store == SectorStoreStatus::Empty || d[at].store == SectorStoreStatus::Using,
        info.store == d[at].store,
        info.at == at,
        info.remain == geo.sec - 16 - image::span(d[at].recs),
        info.empty == at + 16 + image::span(d[at].recs),
        16 + image::span(d[at].recs) + n.len + 88 < geo.sec,
    ensures
        ({
            let (m1, r) = model::move_body(m, n, info);
            let rec = d[from].recs[i];
            &&& r == Ok::<(), FdbError>(())
            &&& m1.budget is None
            &&& m1.bytes.len() == m.bytes.len()
            &&& image::holds_image(
                m1,
                geo,
                d.insert(at, appended(d[at], live_rec(rec.name, rec.value))),
            )
        }),
{
    let s = d[at];
    let rec = d[from].recs[i];
    let len = n.len;
    let src = n.at;
    let a = info.empty;
    assert(image::sector_at(m.bytes, geo, from, d[from]));
    image::lemma_place(m.bytes, geo, from, d[from], i);
    assert(image::sector_at(m.bytes, geo, at, s));
    image::lemma_open_sector(m.bytes, geo, at, s);
    image::lemma_reach(s.recs, 0, s.recs.len() as int);
    if from != at {
        db::lemma_apart(geo, from, at);
    }
    assert(src + len <= a || a + len <= src);
    lemma_note_use(m, geo, d, at, len);
    let full = lookup::full_info(geo, at, s);
    assert(model::note_use(m, info, len) == model::note_use(m, full, len));
    let (m1, r1) = model::note_use(m, info, len);
    assert(m1.bytes.len() == m.bytes.len());
    assert(image::same_on(m.bytes, m1.bytes, src, src + len));
    image::lemma_rec_frame(m.bytes, m1.bytes, geo, src, rec);
    lemma_copy_record(m1, src, a, rec);
    lemma_append(m.bytes, geo, d, at, rec.name, rec.value);
    lemma_rec_bytes(rec.name, rec.value);
    let m4 = model::move_body(m, n, info).0;
    assert(m4.bytes =~= with_record(m.bytes, at, s, rec.name, rec.value));
}

// -------------------------------------------------------------------------- formatting

/// A sector that was just formatted.
pub open spec fn fresh() -> Sect {
    Sect {
        store: SectorStoreStatus::Empty,
        dirty: SectorDirtyStatus::False,
        recs: Seq::empty(),
    }
}

proof fn lemma_four(a: Seq<u8>, b: Seq<u8>, c: Seq<u8>, d: Seq<u8>)
    requires
        a.len() == 4,
        b.len() == 4,
        c.len() == 4,
        d.len() == 4,
    ensures
        (a + b + c + d).len() == 16,
        (a + b + c + d)[0] == a[0],
        (a + b + c + d)[1] == a[1],
        (a + b + c + d).subrange(4, 8) == b,
        (a + b + c + d).subrange(8, 12) == c,
{
    let s = a + b + c + d;
    assert(s.subrange(4, 8) =~= b);
    assert(s.subrange(8, 12) =~= c);
}

/// What a formatted sector holds, whatever stood there.
pub proof fn lemma_format_sector(m: Medium, geo: Geo, at: int)
    requires
        model::geo_ok(geo),
        m.budget is None,
        db::is_sector(geo, at),
        geo.max <= m.bytes.len(),
    ensures
        ({
            let (m1, r) = model::format(m, geo, at, SECTOR_NOT_COMBINED as int);
            &&& r == Ok::<(), FdbError>(())
            &&& m1.budget is None
            &&& m1.clears == m.clears
            &&& db::whole_sectors(geo, m.erases) ==> db::whole_sectors(geo, m1.erases)
            &&& m.flushed.len() == m.bytes.len() ==> m1.flushed.len() == m1.bytes.len()
            &&& image::same_but(m.bytes, m1.bytes, geo, at)
            &&& image::sector_at(m1.bytes, geo, at, fresh())
        }),
{
    let m1 = m.erase(at, geo.sec);
    assert(m.accepts(at, geo.sec));
    if db::whole_sectors(geo, m.erases) {
        db::lemma_sector_erased(geo, m.erases, at);
    }
    assert(m1.bytes.len() == m.bytes.len());
    let hdr = model::fresh_sector_header(SECTOR_NOT_COMBINED as int);
    lemma_four(
        seq![status::status_byte(1), status::status_byte(1), 0xFFu8, 0xFFu8],
        codec::le32_bytes(SECTOR_MAGIC_WORD as int),
        codec::le32_bytes(SECTOR_NOT_COMBINED as int),
        flash::erased(4),
    );
    let m2 = m1.program(at, hdr, true);
    flash::lemma_clears_erased(m1, at, hdr);
    assert(m1.accepts(at, 16));
    let b = m2.bytes;
    assert(b[at] == hdr[0]);
    assert(b[at + 1] == hdr[1]);
    assert(b.subrange(at + 4, at + 8) =~= hdr.subrange(4, 8));
    assert(b.subrange(at + 8, at + 12) =~= hdr.subrange(8, 12));
    codec::le32_round_trip(SECTOR_MAGIC_WORD as int, b, at + 4);
    codec::le32_round_trip(SECTOR_NOT_COMBINED as int, b, at + 8);
    assert(image::span(fresh().recs) == 0);
    assert(image::sector_at(b, geo, at, fresh())) by {
        reveal(image::sector_at);
    }
}

/// Formatting a sector of an image.
pub proof fn lemma_format(m: Medium, geo: Geo, d: Map<int, Sect>, at: int)
    requires
        image::holds_image(m, geo, d),
        m.budget is None,
        db::is_sector(geo, at),
    ensures
        ({
            let (m1, r) = model::format(m, geo, at, SECTOR_NOT_COMBINED as int);
            &&& r == Ok::<(), FdbError>(())
            &&& m1.budget is None
            &&& m1.bytes.len() == m.bytes.len()
            &&& image::holds_image(m1, geo, d.insert(at, fresh()))
        }),
{
    lemma_format_sector(m, geo, at);
    let m1 = model::format(m, geo, at, SECTOR_NOT_COMBINED as int).0;
    image::lemma_image_frame(m.bytes, m1.bytes, geo, d, at, fresh());
}

} // verus!
