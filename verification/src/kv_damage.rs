//! What damage does to the key-value database: the CRC of a record shows it. The record is
//! not found any more, no other name reads otherwise, and checking reports it.
use vstd::prelude::*;

use crate::codec;
use crate::crc32;
use crate::db;
use crate::db::Geo;
use crate::def::{KvStatus, SectorStoreStatus, KV_NAME_MAX};
use crate::error::FdbError;
use crate::kv_gc as gc;
use crate::kv_image as image;
use crate::kv_image::{Rec, Sect};
use crate::kv_laws as laws;
use crate::kv_lookup as lookup;
use crate::kv_model as model;
use crate::kv_model::{KvState, Node, SecInfo, KV_MAGIC_WORD};
use crate::ring;
use crate::storage::Medium;

verus! {

/// The medium `m` once the byte at `q` has become `b`.
pub open spec fn spoilt(m: Medium, q: int, b: u8) -> Medium {
    Medium { bytes: m.bytes.update(q, b), ..m }
}

/// The address of the `j`th record of the sector at `x`.
pub open spec fn home(d: Map<int, Sect>, x: int, j: int) -> int {
    image::place(x, d[x].recs, j)
}

/// Whether the byte at `q` is one of the name or the value of the `j`th record of the sector at
/// `x`, a sound one, and is not `b`.
pub open spec fn hits(m: Medium, geo: Geo, d: Map<int, Sect>, x: int, j: int, q: int, b: u8) -> bool {
    &&& db::is_sector(geo, x)
    &&& 0 <= j < d[x].recs.len()
    &&& d[x].recs[j].sound
    &&& home(d, x, j) + 24 <= q < home(d, x, j) + 24 + d[x].recs[j].name.len()
        + d[x].recs[j].value.len()
    &&& m.bytes[q] != b
}

/// Whether no word of the `len` bytes from `p` on looks like the mark of another record.
pub open spec fn unmarked(bytes: Seq<u8>, p: int, len: int) -> bool {
    forall|w: int| p + 5 <= w && w + 4 <= p + len ==> codec::le32(bytes, w) != KV_MAGIC_WORD
}

// ------------------------------------------------------------------------ where marks stand

proof fn lemma_window_from(bytes: Seq<u8>, start: int, i: int, floor: int)
    requires
        0 <= i,
    ensures
        model::mark_in_window(bytes, start, i, floor) matches Some(a) ==> start + i <= a + 4 < start
            + 28,
    decreases 28 - i,
{
    if i < 28 {
        lemma_window_from(bytes, start, i + 1, floor);
    }
}

proof fn lemma_mark_from(bytes: Seq<u8>, start: int, end: int, floor: int)
    ensures
        model::next_mark(bytes, start, end, floor) matches Some(a) ==> start <= a + 4,
    decreases end - start,
{
    lemma_window_from(bytes, start, 0, floor);
    if start + 32 < end {
        lemma_mark_from(bytes, start + 28, end, floor);
    }
}

proof fn lemma_window_same(b1: Seq<u8>, q: int, b: u8, start: int, i: int, floor: int)
    requires
        0 <= start,
        0 <= i,
        start + 32 <= b1.len(),
        0 <= q < b1.len(),
        ({
            ||| q < start + i
            ||| start + 31 <= q
            ||| model::mark_in_window(b1, start, i, floor) matches Some(a) && a + 8 <= q
        }),
    ensures
        model::mark_in_window(b1.update(q, b), start, i, floor) == model::mark_in_window(
            b1,
            start,
            i,
            floor,
        ),
    decreases 28 - i,
{
    if i < 28 {
        lemma_window_from(b1, start, i, floor);
        lemma_window_from(b1, start, i + 1, floor);
        assert(codec::le32(b1.update(q, b), start + i) == codec::le32(b1, start + i));
        if !(codec::le32(b1, start + i) == KV_MAGIC_WORD && start + i - 4 >= floor) {
            lemma_window_same(b1, q, b, start, i + 1, floor);
        }
    }
}

proof fn lemma_mark_same(b1: Seq<u8>, q: int, b: u8, start: int, end: int, floor: int)
    requires
        0 <= start,
        0 <= q < b1.len(),
        ({
            ||| q < start
            ||| model::next_mark(b1, start, end, floor) matches Some(a) && a + 8 <= q
        }),
    ensures
        model::next_mark(b1.update(q, b), start, end, floor) == model::next_mark(
            b1,
            start,
            end,
            floor,
        ),
    decreases end - start,
{
    if start + 32 < end && start + 32 <= b1.len() {
        lemma_window_from(b1, start, 0, floor);
        lemma_mark_from(b1, start + 28, end, floor);
        lemma_window_same(b1, q, b, start, 0, floor);
        if model::mark_in_window(b1, start, 0, floor) is None {
            lemma_mark_same(b1, q, b, start + 28, end, floor);
        }
    }
}

// ---------------------------------------------------------------------- the damaged record

/// Reading the damaged record shows that its CRC is wrong, and changes nothing.
proof fn lemma_read_spoilt(m: Medium, geo: Geo, a: int, r: Rec, q: int, b: u8, n: Node)
    requires
        r.sound,
        image::sound_at(m.bytes, a, r),
        image::body(r) <= geo.max,
        a + 24 <= q < a + image::body(r),
        m.bytes[q] != b,
        n.at == a,
        n.name.len() == KV_NAME_MAX,
    ensures
        ({
            let m2 = spoilt(m, q, b);
            let n1 = model::read_node(m2, geo, n);
            &&& model::after_read(m2, geo, a) == m2
            &&& !n1.crc_ok
            &&& n1.status == r.status
            &&& n1.len == image::body(r)
            &&& n1.at == a
            &&& n1.name.len() == KV_NAME_MAX
        }),
{
    reveal(model::read_node);
    reveal(model::after_read);
    let m2 = spoilt(m, q, b);
    let len = image::body(r);
    let hdr = m.bytes.subrange(a, a + 24);
    image::lemma_header_words(m.bytes, a, r);
    image::lemma_sound_crc(m.bytes, a, r);
    assert(m2.bytes.subrange(a, a + 24) =~= hdr);
    assert(codec::le32(m2.bytes, a + 8) == codec::le32(m.bytes, a + 8));
    image::lemma_node_crc(m2, a, len);
    assert(codec::le32(hdr, 8) == codec::le32(m.bytes, a + 8));
    assert(codec::le32(hdr, 12) == codec::le32(m.bytes, a + 12));
    assert(hdr[0] == m.bytes[a]);
    image::lemma_node_status(hdr, r.status);
    let c = crc32::crc32(
        crc32::crc32(0, m.bytes.subrange(a + 16, a + 20)),
        m.bytes.subrange(a + 20, a + 24),
    );
    let data = m.bytes.subrange(a + 24, a + len);
    assert(m2.bytes.subrange(a + 16, a + 20) =~= m.bytes.subrange(a + 16, a + 20));
    assert(m2.bytes.subrange(a + 20, a + 24) =~= m.bytes.subrange(a + 20, a + 24));
    assert(m2.bytes.subrange(a + 24, a + len) =~= data.update(q - a - 24, b));
    crc32::crc32_shows_a_changed_byte(c, data, q - a - 24, b);
    let nl = model::least(hdr[16] as int, KV_NAME_MAX as int);
    assert(model::fetch_head(m2, a + 24, n.name, nl).len() == KV_NAME_MAX);
}

/// What follows a record starts quietly.
proof fn lemma_quiet_end(m: Medium, geo: Geo, at: int, s: Sect, j: int)
    requires
        image::sector_at(m.bytes, geo, at, s),
        0 <= j < s.recs.len(),
    ensures
        image::quiet(m.bytes, image::place(at, s.recs, j + 1)),
{
    let e = image::place(at, s.recs, j + 1);
    image::lemma_place(m.bytes, geo, at, s, j);
    if j + 1 < s.recs.len() {
        image::lemma_place(m.bytes, geo, at, s, j + 1);
        image::lemma_rec_quiet(m.bytes, geo, e, s.recs[j + 1]);
    } else {
        assert(e == at + 16 + image::span(s.recs));
        assert(forall|k: int| e <= k < at + geo.sec ==> m.bytes[k] == 0xFF) by {
            image::lemma_open_sector(m.bytes, geo, at, s);
        }
    }
}

/// No mark stands where a record ends, or behind it.
proof fn lemma_no_mark_past(bytes: Seq<u8>, a: int, r: Rec, w: int)
    requires
        image::pad_at(bytes, a, r),
        image::quiet(bytes, a + image::size(r)),
        a + image::body(r) < w + 4,
        w < a + image::size(r) + 4,
    ensures
        ({
            ||| bytes[w + 3] != 0x30 && w + 3 >= a + image::body(r)
            ||| bytes[w] != 0x4B && w >= a + image::size(r)
        }),
{
    image::lemma_status_bytes();
    let e = a + image::size(r);
    if w + 3 < e {
        assert(bytes[w + 3] == 0x7F);
    } else if w + 3 == e {
    } else if w + 3 == e + 1 {
    } else if w + 3 == e + 2 {
    } else if w + 3 == e + 3 {
    } else if w == e + 1 {
    } else if w == e + 2 {
    } else {
        assert(w == e + 3);
    }
}

/// Reading a record of the damaged medium that is not the damaged one, and where the next one
/// is: as on the medium before.
#[verifier::rlimit(60)]
proof fn lemma_whole(
    m: Medium,
    geo: Geo,
    d: Map<int, Sect>,
    x: int,
    j: int,
    q: int,
    b: u8,
    at: int,
    info: SecInfo,
    i: int,
    n: Node,
)
    requires
        image::holds_image(m, geo, d),
        image::settled(geo, d),
        hits(m, geo, d, x, j, q, b),
        db::is_sector(geo, at),
        info.at == at,
        info.store == d[at].store,
        0 <= i < d[at].recs.len(),
        !(at == x && i == j),
        n.at == home(d, at, i),
        n.name.len() == KV_NAME_MAX,
    ensures
        ({
            let m2 = spoilt(m, q, b);
            let n1 = model::read_node(m2, geo, n);
            let recs = d[at].recs;
            &&& model::after_read(m2, geo, n.at) == m2
            &&& n1.crc_ok <==> recs[i].sound
            &&& recs[i].sound ==> image::shows(n1, n.at, recs[i])
            &&& n1.name.len() == KV_NAME_MAX
            &&& model::next_node(m2.bytes, geo, info, n1) == (if i + 1 < recs.len() {
                Some(home(d, at, i + 1))
            } else {
                None
            })
            &&& n.at < home(d, at, i + 1) < at + geo.sec
        }),
{
    let m2 = spoilt(m, q, b);
    let s = d[at];
    let r = s.recs[i];
    assert(image::sector_at(m.bytes, geo, at, s));
    assert(image::sector_at(m.bytes, geo, x, d[x]));
    image::lemma_place(m.bytes, geo, at, s, i);
    image::lemma_place(m.bytes, geo, x, d[x], j);
    let n1 = model::read_node(m2, geo, n);
    db::lemma_geo(geo);
    assert(r.sound || r.status != KvStatus::Unused);
    if at != x {
        db::lemma_apart(geo, at, x);
        assert(image::same_on(m.bytes, m2.bytes, at, at + geo.sec));
        image::lemma_sector_frame(m.bytes, m2.bytes, geo, at, s);
        image::lemma_place(m2.bytes, geo, at, s, i);
        lemma_read(m2, geo, n.at, r, n);
        image::lemma_next_node_in(m2.bytes, geo, at, s, info, i, n1);
    } else {
        assert(forall|k: int| 0 <= k < s.recs.len() ==> image::size(#[trigger] s.recs[k]) >= 0) by {
            image::lemma_open_sector(m.bytes, geo, at, s);
        }
        if i < j {
            image::lemma_reach(s.recs, i + 1, j);
        } else {
            image::lemma_reach(s.recs, j + 1, i);
        }
        assert(image::same_on(m.bytes, m2.bytes, n.at, n.at + image::size(r)));
        image::lemma_rec_frame(m.bytes, m2.bytes, geo, n.at, r);
        lemma_read(m2, geo, n.at, r, n);
        image::lemma_next_node_in(m.bytes, geo, at, s, info, i, n1);
        lemma_next_same(m.bytes, geo, info, n1, q, b);
    }
}

/// Reading a record that was marked if it is a torn one.
proof fn lemma_read(m: Medium, geo: Geo, a: int, r: Rec, n: Node)
    requires
        image::rec_at(m.bytes, geo, a, r),
        image::body(r) <= geo.max,
        m.bytes.len() <= 0xFFFF_FFFF,
        r.sound || r.status != KvStatus::Unused,
        n.at == a,
        n.name.len() == KV_NAME_MAX,
    ensures
        ({
            let n1 = model::read_node(m, geo, n);
            &&& model::after_read(m, geo, a) == m
            &&& n1.crc_ok <==> r.sound
            &&& r.sound ==> image::shows(n1, a, r)
            &&& !r.sound ==> image::shows_torn(n1, a, r.torn_len)
        }),
{
    if r.sound {
        image::lemma_read_sound(m, geo, a, r, n);
    } else {
        image::lemma_read_torn(m, geo, a, r, n);
    }
}

/// The next node is found where it was if the damage lies before the node or behind its mark.
proof fn lemma_next_same(bytes: Seq<u8>, geo: Geo, info: SecInfo, n: Node, q: int, b: u8)
    requires
        0 <= n.at,
        0 <= n.len,
        0 <= q < bytes.len(),
        q < n.at || (model::next_node(bytes, geo, info, n) matches Some(a) && a + 8 <= q),
        n.at != 0xFFFF_FFFF,
    ensures
        model::next_node(bytes.update(q, b), geo, info, n) == model::next_node(bytes, geo, info, n),
{
    reveal(model::next_node);
    let from = if n.crc_ok || model::half_written(n) {
        n.at + n.len
    } else {
        n.at + 1
    };
    let end = info.at + geo.sec - 16;
    if q < from || (model::next_mark(bytes, from, end, from) matches Some(a) && a + 8 <= q) {
        lemma_mark_same(bytes, q, b, from, end, from);
    }
}

/// Reading the damaged record, and where the next one is if it holds nothing like a mark.
#[verifier::rlimit(60)]
proof fn lemma_damaged(
    m: Medium,
    geo: Geo,
    d: Map<int, Sect>,
    x: int,
    j: int,
    q: int,
    b: u8,
    info: SecInfo,
    n: Node,
)
    requires
        image::holds_image(m, geo, d),
        hits(m, geo, d, x, j, q, b),
        info.at == x,
        info.store == d[x].store,
        n.at == home(d, x, j),
        n.name.len() == KV_NAME_MAX,
    ensures
        ({
            let m2 = spoilt(m, q, b);
            let n1 = model::read_node(m2, geo, n);
            let recs = d[x].recs;
            &&& model::after_read(m2, geo, n.at) == m2
            &&& !n1.crc_ok
            &&& n1.name.len() == KV_NAME_MAX
            &&& unmarked(m2.bytes, n.at, image::body(recs[j])) && recs[j].status == KvStatus::Write
                ==> model::next_node(m2.bytes, geo, info, n1) == (if j + 1 < recs.len() {
                Some(home(d, x, j + 1))
            } else {
                None
            })
            &&& n.at < home(d, x, j + 1) < x + geo.sec
        }),
{
    let m2 = spoilt(m, q, b);
    let s = d[x];
    let r = s.recs[j];
    assert(image::sector_at(m.bytes, geo, x, s));
    image::lemma_place(m.bytes, geo, x, s, j);
    db::lemma_geo(geo);
    lemma_read_spoilt(m, geo, n.at, r, q, b, n);
    if unmarked(m2.bytes, n.at, image::body(r)) && r.status == KvStatus::Write {
        reveal(model::next_node);
        let from = n.at + 1;
        let end = x + geo.sec - 16;
        let e = home(d, x, j + 1);
        assert(s.store != SectorStoreStatus::Empty && (forall|k: int|
            x + 16 + image::span(s.recs) <= k < x + geo.sec ==> m.bytes[k] == 0xFF) && (j + 1
            < s.recs.len() && !s.recs[j + 1].sound ==> s.recs[j + 1].torn_len > 24)) by {
            image::lemma_open_sector(m.bytes, geo, x, s);
        }
        lemma_quiet_end(m, geo, x, s, j);
        assert forall|w: int| from <= w < e + 4 implies !#[trigger] image::marks(
            m2.bytes,
            w,
            from,
        ) by {
            if image::marks(m2.bytes, w, from) {
                image::lemma_magic_bytes(m2.bytes, w);
                if w + 4 <= n.at + image::body(r) {
                    assert(codec::le32(m2.bytes, w) != KV_MAGIC_WORD);
                } else {
                    lemma_no_mark_past(m.bytes, n.at, r, w);
                }
            }
        }
        if j + 1 < s.recs.len() {
            image::lemma_place(m.bytes, geo, x, s, j + 1);
            let nx = s.recs[j + 1];
            if nx.sound {
                image::lemma_header_words(m.bytes, e, nx);
            }
            assert(codec::le32(m2.bytes, e + 4) == codec::le32(m.bytes, e + 4));
            assert(image::marks(m2.bytes, e + 4, from));
            image::lemma_mark_first(m2.bytes, from, end, from, e + 4);
        } else {
            assert(e == x + 16 + image::span(s.recs));
            assert forall|w: int| from <= w && w + 4 <= end implies !#[trigger] image::marks(
                m2.bytes,
                w,
                from,
            ) by {
                if w >= e && image::marks(m2.bytes, w, from) {
                    image::lemma_magic_bytes(m2.bytes, w);
                    assert(m.bytes[w] == 0xFF);
                }
            }
            image::lemma_mark_none(m2.bytes, from, end, from);
        }
    }
}

/// The head of a sector of the damaged medium.
proof fn lemma_head(m: Medium, geo: Geo, d: Map<int, Sect>, x: int, j: int, q: int, b: u8, at: int)
    requires
        image::holds_image(m, geo, d),
        hits(m, geo, d, x, j, q, b),
        db::is_sector(geo, at),
    ensures
        model::sector_head(spoilt(m, q, b), at) == model::sector_head(m, at),
        image::heads(model::sector_head(m, at), at, d[at]),
{
    reveal(model::sector_head);
    image::lemma_head(m, geo, d, at);
    assert(image::sector_at(m.bytes, geo, at, d[at]));
    assert(image::sector_at(m.bytes, geo, x, d[x]));
    image::lemma_open_sector(m.bytes, geo, at, d[at]);
    image::lemma_place(m.bytes, geo, x, d[x], j);
    if at != x {
        db::lemma_apart(geo, at, x);
    }
    let m2 = spoilt(m, q, b);
    assert(m2.fetch(at, crate::flash::zeros(16)) =~= m.fetch(at, crate::flash::zeros(16)));
}

// ------------------------------------------------------------------------------ looking up

/// Whether the `k`th record of the sector at `a` is a live one with the name `key`, and not the
/// damaged one.
pub open spec fn still_hit(
    geo: Geo,
    d: Map<int, Sect>,
    x: int,
    j: int,
    a: int,
    k: int,
    key: Seq<u8>,
) -> bool {
    lookup::hit(geo, d, a, k, key) && !(a == x && k == j)
}

proof fn lemma_find_in(
    m: Medium,
    geo: Geo,
    d: Map<int, Sect>,
    x: int,
    j: int,
    q: int,
    b: u8,
    at: int,
    info: SecInfo,
    i: int,
    n: Node,
    key: Seq<u8>,
)
    requires
        image::holds_image(m, geo, d),
        image::settled(geo, d),
        hits(m, geo, d, x, j, q, b),
        d[x].recs[j].status == KvStatus::Write,
        unmarked(m.bytes.update(q, b), home(d, x, j), image::body(d[x].recs[j])),
        db::is_sector(geo, at),
        info.at == at,
        info.store == d[at].store,
        0 <= i < d[at].recs.len(),
        n.at == home(d, at, i),
        n.name.len() == KV_NAME_MAX,
    ensures
        ({
            let m2 = spoilt(m, q, b);
            let (m1, n1, found) = model::find_in_sector(m2, geo, info, n, key);
            &&& m1 == m2
            &&& n1.name.len() == KV_NAME_MAX
            &&& found ==> exists|k: int|
                i <= k && #[trigger] still_hit(geo, d, x, j, at, k, key) && lookup::shown(
                    d,
                    at,
                    k,
                    n1,
                )
            &&& !found ==> forall|k: int| i <= k ==> !#[trigger] still_hit(geo, d, x, j, at, k, key)
        }),
    decreases d[at].recs.len() - i,
{
    let m2 = spoilt(m, q, b);
    let recs = d[at].recs;
    let n1 = model::read_node(m2, geo, n);
    if at == x && i == j {
        lemma_damaged(m, geo, d, x, j, q, b, info, n);
    } else {
        lemma_whole(m, geo, d, x, j, q, b, at, info, i, n);
    }
    assert(model::is_live(n1, key) == still_hit(geo, d, x, j, at, i, key)) by {
        if recs[i].sound {
            assert(image::sector_at(m.bytes, geo, at, d[at]));
            image::lemma_place(m.bytes, geo, at, d[at], i);
        }
    }
    if model::is_live(n1, key) {
        assert(still_hit(geo, d, x, j, at, i, key) && lookup::shown(d, at, i, n1));
    } else if i + 1 < recs.len() {
        let a = home(d, at, i + 1);
        lemma_find_in(m, geo, d, x, j, q, b, at, info, i + 1, Node { at: a, ..n1 }, key);
        assert forall|k: int| i <= k && !(i + 1 <= k) implies !#[trigger] still_hit(
            geo,
            d,
            x,
            j,
            at,
            k,
            key,
        ) by {
            assert(k == i);
        }
    } else {
        assert forall|k: int| i <= k implies !#[trigger] still_hit(geo, d, x, j, at, k, key) by {
            if k != i {
                assert(k >= recs.len());
            }
        }
    }
}

#[verifier::rlimit(40)]
proof fn lemma_find_from(
    m: Medium,
    geo: Geo,
    d: Map<int, Sect>,
    x: int,
    j: int,
    q: int,
    b: u8,
    o: int,
    t: int,
    n: Node,
    key: Seq<u8>,
)
    requires
        image::holds_image(m, geo, d),
        image::settled(geo, d),
        hits(m, geo, d, x, j, q, b),
        d[x].recs[j].status == KvStatus::Write,
        unmarked(m.bytes.update(q, b), home(d, x, j), image::body(d[x].recs[j])),
        ring::on_walk(geo, o, t),
        n.name.len() == KV_NAME_MAX,
    ensures
        ({
            let m2 = spoilt(m, q, b);
            let (m1, n1, found) = model::find_from(m2, geo, key, ring::at(geo, o, t), t, n);
            &&& m1 == m2
            &&& found ==> exists|a: int, k: int| #[trigger]
                still_hit(geo, d, x, j, a, k, key) && lookup::shown(d, a, k, n1)
            &&& !found ==> forall|a: int, k: int|
                ring::dist(geo, o, a) >= t ==> !#[trigger] still_hit(geo, d, x, j, a, k, key)
        }),
    decreases geo.max - t,
{
    let m2 = spoilt(m, q, b);
    let at = ring::at(geo, o, t);
    ring::lemma_walk(geo, o, t);
    lemma_head(m, geo, d, x, j, q, b, at);
    let s = model::sector_head(m2, at);
    assert(image::sector_at(m.bytes, geo, at, d[at]));
    image::lemma_open_sector(m.bytes, geo, at, d[at]);
    let recs = d[at].recs;
    let (m1, n1, found) = if model::has_nodes(s) {
        model::find_in_sector(m2, geo, s, Node { at: at + 16, ..n }, key)
    } else {
        (m2, n, false)
    };
    if recs.len() > 0 {
        assert(image::place(at, recs, 0) == at + 16);
        lemma_find_in(m, geo, d, x, j, q, b, at, s, 0, Node { at: at + 16, ..n }, key);
    } else {
        assert(!model::has_nodes(s));
        assert forall|k: int| !#[trigger] still_hit(geo, d, x, j, at, k, key) by {}
    }
    lookup::lemma_next(geo, o, t, s);
    if !found {
        assert forall|k: int| !#[trigger] still_hit(geo, d, x, j, at, k, key) by {
            if k < 0 {
            }
        }
        if t + geo.sec < geo.max {
            lemma_find_from(m, geo, d, x, j, q, b, o, t + geo.sec, n1, key);
        }
        let out = model::find_from(m2, geo, key, at, t, n);
        if !out.2 {
            assert forall|a: int, k: int| ring::dist(geo, o, a) >= t implies !#[trigger] still_hit(
                geo,
                d,
                x,
                j,
                a,
                k,
                key,
            ) by {
                if still_hit(geo, d, x, j, a, k, key) {
                    ring::lemma_ahead(geo, o, t, a);
                    if a != at {
                        ring::lemma_dist(geo, o, a);
                        assert(ring::dist(geo, o, a) < geo.max);
                    }
                }
            }
        }
    }
}

/// A damaged record is not found: where one byte of the name or the value of a live record has
/// become another, in one bit or in more, its name reads as absent, and every other name reads
/// as before. What is left of the record must not look like the mark of another.
pub proof fn a_damaged_record_is_not_found(
    st: KvState,
    d: Map<int, Sect>,
    x: int,
    j: int,
    q: int,
    b: u8,
)
    requires
        laws::fair(st, d),
        image::settled(st.geo, d),
        gc::live(st.geo, d, x, j),
        hits(st.m, st.geo, d, x, j, q, b),
        unmarked(
            st.m.bytes.update(q, b),
            home(d, x, j),
            24 + d[x].recs[j].name.len() as int + d[x].recs[j].value.len() as int,
        ),
    ensures
        ({
            let st2 = KvState { m: spoilt(st.m, q, b), ..st };
            let key = d[x].recs[j].name;
            &&& model::lookup(st, key) == Some(d[x].recs[j].value)
            &&& model::lookup(st2, key) is None
            &&& forall|k: Seq<u8>|
                k != key ==> #[trigger] model::lookup(st2, k) == model::lookup(st, k)
        }),
{
    let geo = st.geo;
    let st2 = KvState { m: spoilt(st.m, q, b), ..st };
    let key = d[x].recs[j].name;
    laws::lookup_gives_the_live_value(st, d, key);
    assert(gc::live_as(geo, d, x, j, key, d[x].recs[j].value));
    assert(gc::has_live(geo, d, key, d[x].recs[j].value));
    assert forall|k: Seq<u8>| #[trigger]
        model::lookup(st2, k) == (if k == key {
            None
        } else {
            model::lookup(st, k)
        }) by {
        lemma_lookup(st, d, x, j, q, b, k);
    }
}

proof fn lemma_lookup(
    st: KvState,
    d: Map<int, Sect>,
    x: int,
    j: int,
    q: int,
    b: u8,
    key: Seq<u8>,
)
    requires
        laws::fair(st, d),
        image::settled(st.geo, d),
        gc::live(st.geo, d, x, j),
        hits(st.m, st.geo, d, x, j, q, b),
        unmarked(
            st.m.bytes.update(q, b),
            home(d, x, j),
            24 + d[x].recs[j].name.len() as int + d[x].recs[j].value.len() as int,
        ),
    ensures
        model::lookup(KvState { m: spoilt(st.m, q, b), ..st }, key) == (if key
            == d[x].recs[j].name {
            None
        } else {
            model::lookup(st, key)
        }),
{
    reveal(model::find);
    let geo = st.geo;
    let m2 = spoilt(st.m, q, b);
    let st2 = KvState { m: m2, ..st };
    laws::lookup_gives_the_live_value(st, d, key);
    ring::lemma_first(geo, st.oldest);
    lemma_find_from(st.m, geo, d, x, j, q, b, st.oldest, 0, model::blank_node(), key);
    let (m1, n, found) = model::find(st2, key);
    if found {
        let (a, k) = choose|a: int, k: int| #[trigger]
            still_hit(geo, d, x, j, a, k, key) && lookup::shown(d, a, k, n);
        let r = d[a].recs[k];
        assert(gc::live(geo, d, a, k));
        assert(gc::live(geo, d, x, j));
        assert(key != d[x].recs[j].name);
        assert(gc::live_as(geo, d, a, k, key, r.value));
        assert(gc::has_live(geo, d, key, r.value));
        assert(model::lookup(st, key) == Some(r.value));
        lemma_value(st.m, geo, d, x, j, q, b, a, k, n);
    } else {
        if key != d[x].recs[j].name {
            assert forall|v: Seq<u8>| !#[trigger] gc::has_live(geo, d, key, v) by {
                if gc::has_live(geo, d, key, v) {
                    let (a, k) = laws::lemma_live_hit(geo, d, key, v);
                    ring::lemma_dist(geo, st.oldest, a);
                    assert(still_hit(geo, d, x, j, a, k, key));
                }
            }
        }
    }
}

/// The value of a record that is not the damaged one.
proof fn lemma_value(
    m: Medium,
    geo: Geo,
    d: Map<int, Sect>,
    x: int,
    j: int,
    q: int,
    b: u8,
    a: int,
    k: int,
    n: Node,
)
    requires
        image::holds_image(m, geo, d),
        hits(m, geo, d, x, j, q, b),
        db::is_sector(geo, a),
        0 <= k < d[a].recs.len(),
        d[a].recs[k].sound,
        !(a == x && k == j),
        lookup::shown(d, a, k, n),
    ensures
        model::value_of(spoilt(m, q, b), n) == d[a].recs[k].value,
{
    lookup::lemma_shown_value(m, geo, d, a, k, n);
    assert(image::sector_at(m.bytes, geo, a, d[a]));
    assert(image::sector_at(m.bytes, geo, x, d[x]));
    image::lemma_place(m.bytes, geo, a, d[a], k);
    image::lemma_place(m.bytes, geo, x, d[x], j);
    if a != x {
        db::lemma_geo(geo);
        db::lemma_apart(geo, a, x);
    } else {
        assert(forall|i: int|
            0 <= i < d[x].recs.len() ==> image::size(#[trigger] d[x].recs[i]) >= 0) by {
            image::lemma_open_sector(m.bytes, geo, x, d[x]);
        }
        if k < j {
            image::lemma_reach(d[x].recs, k + 1, j);
        } else {
            image::lemma_reach(d[x].recs, j + 1, k);
        }
    }
    assert(model::value_of(spoilt(m, q, b), n) =~= model::value_of(m, n));
}

// -------------------------------------------------------------------------------- checking

proof fn lemma_check_in(
    m: Medium,
    geo: Geo,
    d: Map<int, Sect>,
    x: int,
    j: int,
    q: int,
    b: u8,
    at: int,
    info: SecInfo,
    i: int,
    n: Node,
)
    requires
        image::holds_image(m, geo, d),
        image::settled(geo, d),
        hits(m, geo, d, x, j, q, b),
        db::is_sector(geo, at),
        info.at == at,
        info.store == d[at].store,
        0 <= i < d[at].recs.len(),
        at == x ==> i <= j,
        n.at == home(d, at, i),
        n.name.len() == KV_NAME_MAX,
    ensures
        ({
            let m2 = spoilt(m, q, b);
            let (m1, r) = model::check_in_sector(m2, geo, info, n);
            &&& m1 == m2
            &&& r matches Err(e) ==> e == FdbError::ReadErr
            &&& at == x ==> r is Err
        }),
    decreases d[at].recs.len() - i,
{
    let m2 = spoilt(m, q, b);
    let recs = d[at].recs;
    let n1 = model::read_node(m2, geo, n);
    if at == x && i == j {
        lemma_damaged(m, geo, d, x, j, q, b, info, n);
    } else {
        lemma_whole(m, geo, d, x, j, q, b, at, info, i, n);
        if recs[i].sound && i + 1 < recs.len() {
            let a = home(d, at, i + 1);
            lemma_check_in(m, geo, d, x, j, q, b, at, info, i + 1, Node { at: a, ..n1 });
        }
    }
}

proof fn lemma_check_from(
    m: Medium,
    geo: Geo,
    d: Map<int, Sect>,
    x: int,
    j: int,
    q: int,
    b: u8,
    o: int,
    t: int,
)
    requires
        image::holds_image(m, geo, d),
        image::settled(geo, d),
        hits(m, geo, d, x, j, q, b),
        ring::on_walk(geo, o, t),
    ensures
        ({
            let m2 = spoilt(m, q, b);
            let (m1, r) = model::check_from(m2, geo, ring::at(geo, o, t), t);
            &&& m1 == m2
            &&& r matches Err(e) ==> e == FdbError::ReadErr
            &&& ring::dist(geo, o, x) >= t ==> r is Err
        }),
    decreases geo.max - t,
{
    let m2 = spoilt(m, q, b);
    let at = ring::at(geo, o, t);
    ring::lemma_walk(geo, o, t);
    lemma_head(m, geo, d, x, j, q, b, at);
    let s = model::sector_head(m2, at);
    assert(image::sector_at(m.bytes, geo, at, d[at]));
    image::lemma_open_sector(m.bytes, geo, at, d[at]);
    lookup::lemma_next(geo, o, t, s);
    let n0 = Node { at: at + 16, ..model::blank_node() };
    if d[at].recs.len() > 0 {
        assert(image::place(at, d[at].recs, 0) == at + 16);
        lemma_check_in(m, geo, d, x, j, q, b, at, s, 0, n0);
    }
    ring::lemma_dist(geo, o, x);
    if ring::dist(geo, o, x) >= t {
        ring::lemma_ahead(geo, o, t, x);
    }
    if t + geo.sec < geo.max {
        lemma_check_from(m, geo, d, x, j, q, b, o, t + geo.sec);
    }
}

/// Checking reports damage: where one byte of the name or the value of a record has become
/// another, in one bit or in more, checking gives `ReadErr`, and changes nothing.
pub proof fn checking_reports_a_damaged_record(
    st: KvState,
    d: Map<int, Sect>,
    x: int,
    j: int,
    q: int,
    b: u8,
)
    requires
        image::holds_image(st.m, st.geo, d),
        db::is_sector(st.geo, st.oldest),
        image::settled(st.geo, d),
        hits(st.m, st.geo, d, x, j, q, b),
    ensures
        model::check_from(spoilt(st.m, q, b), st.geo, st.oldest, 0) == (
            spoilt(st.m, q, b),
            Err::<(), FdbError>(FdbError::ReadErr),
        ),
{
    ring::lemma_first(st.geo, st.oldest);
    ring::lemma_dist(st.geo, st.oldest, x);
    lemma_check_from(st.m, st.geo, d, x, j, q, b, st.oldest, 0);
}

// ------------------------------------------------------------------------- on any medium

/// Whether the node object `n` is what reading the node at its address on the medium `m` gives,
/// and shows a live node with the name `key`.
pub open spec fn read_live(m: Medium, geo: Geo, n: Node, key: Seq<u8>) -> bool {
    model::is_live(n, key) && exists|n0: Node|
        n0.at == n.at && #[trigger] model::read_node(m, geo, n0) == n
}

proof fn lemma_found_in(m: Medium, geo: Geo, s: SecInfo, n: Node, key: Seq<u8>)
    ensures
        ({
            let (m1, n1, found) = model::find_in_sector(m, geo, s, n, key);
            found ==> read_live(m1, geo, n1, key)
        }),
    decreases s.at + geo.sec - n.at,
{
    let m1 = model::after_read(m, geo, n.at);
    let n1 = model::read_node(m, geo, n);
    if model::is_live(n1, key) {
        reveal(model::after_read);
        reveal(model::read_node);
        assert(m1 == m);
        assert(n1.at == n.at);
        assert(model::read_node(m1, geo, n) == n1);
    } else {
        match model::next_node(m1.bytes, geo, s, n1) {
            None => {},
            Some(a) => {
                if n.at < a <= s.at + geo.sec {
                    lemma_found_in(m1, geo, s, Node { at: a, ..n1 }, key);
                }
            },
        }
    }
}

proof fn lemma_found_from(m: Medium, geo: Geo, key: Seq<u8>, at: int, traversed: int, n: Node)
    ensures
        ({
            let (m1, n1, found) = model::find_from(m, geo, key, at, traversed, n);
            found ==> read_live(m1, geo, n1, key)
        }),
    decreases geo.max - traversed,
{
    let s = model::sector_head(m, at);
    let (m1, n1, found) = if model::has_nodes(s) {
        model::find_in_sector(m, geo, s, Node { at: at + 16, ..n }, key)
    } else {
        (m, n, false)
    };
    if model::has_nodes(s) {
        lemma_found_in(m, geo, s, Node { at: at + 16, ..n }, key);
    }
    if !found {
        match model::next_sector(geo, s, traversed + geo.sec) {
            None => {},
            Some(a) => {
                if geo.sec > 0 && traversed < geo.max {
                    lemma_found_from(m1, geo, key, a, traversed + geo.sec, n1);
                }
            },
        }
    }
}

/// What is found is whole, whatever the medium holds: a record that looking up a name finds
/// claims a length that can be, the length of that name, and the CRC of all that its header and
/// its data hold behind the CRC, if it lies within the medium.
pub proof fn what_is_found_is_whole(st: KvState, key: Seq<u8>)
    ensures
        ({
            let (m1, n, found) = model::find(st, key);
            let p = n.at;
            found && 0 <= p && p + n.len <= m1.bytes.len() ==> {
                &&& 24 <= n.len <= st.geo.max
                &&& codec::le32(m1.bytes, p + 8) == n.len
                &&& codec::le32(m1.bytes, p + 12) == crc32::crc32(
                    0,
                    m1.bytes.subrange(p + 16, p + n.len),
                )
                &&& m1.bytes[p + 16] == key.len()
                &&& codec::le32(m1.bytes, p + 20) == n.value_len
            }
        }),
{
    reveal(model::find);
    lemma_found_from(st.m, st.geo, key, st.oldest, 0, model::blank_node());
    let (m1, n, found) = model::find(st, key);
    let p = n.at;
    if found && 0 <= p && p + n.len <= m1.bytes.len() {
        reveal(model::read_node);
        let n0 = choose|n0: Node|
            n0.at == n.at && #[trigger] model::read_node(m1, st.geo, n0) == n;
        let hdr = model::node_header(m1, p);
        assert(model::node_len_ok(st.geo, hdr));
        assert(hdr =~= m1.bytes.subrange(p, p + 24));
        assert(codec::le32(hdr, 8) == codec::le32(m1.bytes, p + 8));
        assert(codec::le32(hdr, 12) == codec::le32(m1.bytes, p + 12));
        assert(codec::le32(hdr, 20) == codec::le32(m1.bytes, p + 20));
        assert(hdr[16] == m1.bytes[p + 16]);
        image::lemma_node_crc(m1, p, n.len);
        let a = m1.bytes.subrange(p + 16, p + 20);
        let b = m1.bytes.subrange(p + 20, p + 24);
        let c = m1.bytes.subrange(p + 24, p + n.len);
        crc32::crc32_chains(0, a, b);
        crc32::crc32_chains(0, a + b, c);
        assert(a + b + c =~= m1.bytes.subrange(p + 16, p + n.len));
    }
}

// --------------------------------------------------------------------- a damaged header

/// Checking the records of a sector that are all sound.
proof fn lemma_check_sound(m: Medium, geo: Geo, at: int, s: Sect, info: SecInfo, i: int, n: Node)
    requires
        image::sector_at(m.bytes, geo, at, s),
        m.bytes.len() <= 0xFFFF_FFFF,
        geo.sec <= geo.max,
        forall|k: int| 0 <= k < s.recs.len() ==> (#[trigger] s.recs[k]).sound,
        info.at == at,
        info.store == s.store,
        0 <= i < s.recs.len(),
        n.at == image::place(at, s.recs, i),
        n.name.len() == KV_NAME_MAX,
    ensures
        model::check_in_sector(m, geo, info, n) == (m, Ok::<(), FdbError>(())),
    decreases s.recs.len() - i,
{
    let r = s.recs[i];
    assert(r.sound);
    image::lemma_place(m.bytes, geo, at, s, i);
    image::lemma_read_sound(m, geo, n.at, r, n);
    let n1 = model::read_node(m, geo, n);
    image::lemma_next_node_in(m.bytes, geo, at, s, info, i, n1);
    if i + 1 < s.recs.len() {
        let a = image::place(at, s.recs, i + 1);
        image::lemma_place(m.bytes, geo, at, s, i + 1);
        lemma_check_sound(m, geo, at, s, info, i + 1, Node { at: a, ..n1 });
    }
}

/// Whether the sector at `at` holds `s`, with sound records only.
#[verifier::opaque]
pub open spec fn sound_sector(bytes: Seq<u8>, geo: Geo, at: int, s: Sect) -> bool {
    image::sector_at(bytes, geo, at, s) && forall|k: int|
        0 <= k < s.recs.len() ==> (#[trigger] s.recs[k]).sound
}

/// Checking a sector with sound records only.
proof fn lemma_check_one(m: Medium, geo: Geo, at: int, s: Sect)
    requires
        model::geo_ok(geo),
        sound_sector(m.bytes, geo, at, s),
        m.bytes.len() <= 0xFFFF_FFFF,
    ensures
        ({
            let h = model::sector_head(m, at);
            &&& image::heads(h, at, s)
            &&& model::has_nodes(h) ==> model::check_in_sector(
                m,
                geo,
                h,
                Node { at: at + 16, ..model::blank_node() },
            ) == (m, Ok::<(), FdbError>(()))
        }),
{
    reveal(sound_sector);
    db::lemma_geo(geo);
    image::lemma_one_head(m, geo, at, s);
    image::lemma_open_sector(m.bytes, geo, at, s);
    let h = model::sector_head(m, at);
    if s.recs.len() > 0 {
        assert(image::place(at, s.recs, 0) == at + 16);
        lemma_check_sound(m, geo, at, s, h, 0, Node { at: at + 16, ..model::blank_node() });
    }
}

proof fn lemma_check_to(m: Medium, geo: Geo, d: Map<int, Sect>, x: int, o: int, t: int)
    requires
        model::geo_ok(geo),
        m.bytes.len() <= 0xFFFF_FFFF,
        forall|a: int|
            db::is_sector(geo, a) && a != x ==> sound_sector(m.bytes, geo, a, #[trigger] d[a]),
        db::is_sector(geo, x),
        !model::sector_head(m, x).check_ok,
        ring::on_walk(geo, o, t),
        ring::dist(geo, o, x) >= t,
    ensures
        model::check_from(m, geo, ring::at(geo, o, t), t) == (
            m,
            Err::<(), FdbError>(FdbError::InitFailed),
        ),
    decreases geo.max - t,
{
    let at = ring::at(geo, o, t);
    ring::lemma_walk(geo, o, t);
    ring::lemma_ahead(geo, o, t, x);
    ring::lemma_dist(geo, o, x);
    if at != x {
        assert(sound_sector(m.bytes, geo, at, d[at]));
        lemma_check_one(m, geo, at, d[at]);
        lookup::lemma_next(geo, o, t, model::sector_head(m, at));
        lemma_check_to(m, geo, d, x, o, t + geo.sec);
    }
}

/// Checking reports a sector whose header does not hold the letters `FDB0` as `InitFailed`,
/// where the records of the other sectors are sound, and changes nothing.
pub proof fn checking_reports_a_bad_header(st: KvState, d: Map<int, Sect>, x: int)
    requires
        model::geo_ok(st.geo),
        db::is_sector(st.geo, st.oldest),
        st.m.bytes.len() <= 0xFFFF_FFFF,
        db::is_sector(st.geo, x),
        forall|a: int|
            db::is_sector(st.geo, a) && a != x ==> sound_sector(
                st.m.bytes,
                st.geo,
                a,
                #[trigger] d[a],
            ),
        x + 16 <= st.m.bytes.len(),
        codec::le32(st.m.bytes, x + 4) != 0x3042_4446,
    ensures
        model::check_from(st.m, st.geo, st.oldest, 0) == (
            st.m,
            Err::<(), FdbError>(FdbError::InitFailed),
        ),
{
    ring::lemma_first(st.geo, st.oldest);
    ring::lemma_dist(st.geo, st.oldest, x);
    assert(!model::sector_head(st.m, x).check_ok) by {
        reveal(model::sector_head);
        let hdr = st.m.fetch(x, crate::flash::zeros(16));
        assert(hdr =~= st.m.bytes.subrange(x, x + 16));
        assert(codec::le32(hdr, 4) == codec::le32(st.m.bytes, x + 4));
    }
    lemma_check_to(st.m, st.geo, d, x, st.oldest, 0);
}

} // verus!
