//! What a power loss leaves of a record that was being written to an image of the
//! key-value database.
use vstd::prelude::*;

use crate::codec;
use crate::crc32;
use crate::db;
use crate::db::Geo;
use crate::def;
use crate::def::{KvStatus, SectorStoreStatus, KV_NAME_MAX};
use crate::error::FdbError;
use crate::flash;
use crate::kv_change as change;
use crate::kv_image as image;
use crate::kv_image::{Rec, Sect};
use crate::kv_model as model;
use crate::kv_model::{KvState, Node, SecInfo, KV_MAGIC_WORD};
use crate::status;
use crate::storage::Medium;

verus! {

/// The bytes of a record with this name and value of which the first `c` were written,
/// but for the status that says it is live.
pub open spec fn half_bytes(name: Seq<u8>, value: Seq<u8>, c: int) -> Seq<u8> {
    Seq::new(
        model::record_len(name, value) as nat,
        |i: int|
            if i == 0 {
                status::status_byte(1)
            } else if i < c {
                change::rec_bytes(name, value)[i]
            } else {
                0xFFu8
            },
    )
}

/// Whether `r` is what was left of a record of `len` bytes that was being written.
pub open spec fn half(r: Rec, len: int) -> bool {
    &&& r.status == KvStatus::PreWrite
    &&& r.pad == 0
    &&& image::body(r) == len
    &&& r.sound || r.torn_len > 24
}

/// The CRC of a name and a value where they stand.
proof fn lemma_data_crc(bytes: Seq<u8>, a: int, nl: int, len: int)
    requires
        0 <= a,
        0 <= nl <= 0xFF,
        24 + nl <= len,
        a + len <= bytes.len(),
        bytes.subrange(a + 16, a + 20) == seq![nl as u8, 0xFFu8, 0xFFu8, 0xFFu8],
        bytes.subrange(a + 20, a + 24) == codec::le32_bytes(len - 24 - nl),
    ensures
        image::data_crc(bytes, a, len) == model::record_crc(
            bytes.subrange(a + 24, a + 24 + nl),
            bytes.subrange(a + 24 + nl, a + len),
        ),
{
    let name = bytes.subrange(a + 24, a + 24 + nl);
    let value = bytes.subrange(a + 24 + nl, a + len);
    let c = crc32::crc32(
        crc32::crc32(0, bytes.subrange(a + 16, a + 20)),
        bytes.subrange(a + 20, a + 24),
    );
    crc32::crc32_chains(c, name, value);
    assert(bytes.subrange(a + 24, a + len) =~= name + value);
}

/// The fields of a record of which at least the header was written.
proof fn lemma_half_fields(bytes: Seq<u8>, a: int, name: Seq<u8>, value: Seq<u8>, c: int)
    requires
        name.len() <= KV_NAME_MAX,
        model::record_len(name, value) <= 0xFFFF_FFFF,
        24 <= c <= model::record_len(name, value),
        0 <= a,
        a + model::record_len(name, value) <= bytes.len(),
        bytes.subrange(a, a + model::record_len(name, value)) == half_bytes(name, value, c),
    ensures
        bytes[a] == status::status_byte(1),
        bytes[a + 1] == 0xFF,
        bytes[a + 2] == 0xFF,
        bytes[a + 3] == 0xFF,
        bytes.subrange(a + 4, a + 24) == model::record_header(name, value).subrange(4, 24),
        codec::le32(bytes, a + 4) == KV_MAGIC_WORD,
        codec::le32(bytes, a + 8) == model::record_len(name, value),
        codec::le32(bytes, a + 12) == model::record_crc(name, value),
        bytes.subrange(a + 16, a + 20) == seq![name.len() as u8, 0xFFu8, 0xFFu8, 0xFFu8],
        bytes.subrange(a + 20, a + 24) == codec::le32_bytes(value.len() as int),
        forall|i: int|
            1 <= i < model::record_len(name, value) ==> #[trigger] bytes[a + i] == (if i < c {
                change::rec_bytes(name, value)[i]
            } else {
                0xFFu8
            }),
{
    let len = model::record_len(name, value);
    let h = half_bytes(name, value, c);
    let full = change::rec_bytes(name, value);
    let sub = bytes.subrange(a, a + len);
    change::lemma_rec_bytes(name, value);
    image::lemma_record_header(name, value);
    assert forall|i: int| 0 <= i < len implies #[trigger] bytes[a + i] == h[i] by {
        assert(sub[i] == bytes[a + i]);
    }
    assert(bytes[a + 0] == h[0]);
    assert(bytes[a + 1] == h[1]);
    assert(bytes[a + 2] == h[2]);
    assert(bytes[a + 3] == h[3]);
    let hdr = model::record_header(name, value);
    assert(bytes.subrange(a + 4, a + 24) =~= hdr.subrange(4, 24)) by {
        assert forall|i: int| 0 <= i < 20 implies bytes.subrange(a + 4, a + 24)[i] == hdr.subrange(
            4,
            24,
        )[i] by {
            assert(bytes[a + (i + 4)] == h[i + 4]);
            assert(full.subrange(4, 24)[i] == full[i + 4]);
        }
    }
    image::lemma_header_fields(bytes, a, name, value);
}

/// What a record of which at least the header was written is: torn, unless what was
/// written of it happens to have the right CRC.
proof fn lemma_half_rec(
    bytes: Seq<u8>,
    geo: Geo,
    a: int,
    name: Seq<u8>,
    value: Seq<u8>,
    c: int,
) -> (r: Rec)
    requires
        name.len() <= KV_NAME_MAX,
        model::record_len(name, value) <= 0xFFFF_FFFF,
        model::record_len(name, value) <= geo.max,
        24 <= c <= model::record_len(name, value),
        0 <= a,
        a + model::record_len(name, value) <= bytes.len(),
        bytes.subrange(a, a + model::record_len(name, value)) == half_bytes(name, value, c),
    ensures
        half(r, model::record_len(name, value)),
        image::rec_at(bytes, geo, a, r),
{
    let len = model::record_len(name, value);
    let nl = name.len() as int;
    lemma_half_fields(bytes, a, name, value, c);
    change::lemma_rec_bytes(name, value);
    let full = change::rec_bytes(name, value);
    let name1 = bytes.subrange(a + 24, a + 24 + nl);
    let value1 = bytes.subrange(a + 24 + nl, a + len);
    lemma_data_crc(bytes, a, nl, len);
    if c == len {
        assert forall|i: int| 24 <= i < len implies bytes[a + i] == full[i] by {
            assert(bytes[a + i] == (if i < c {
                full[i]
            } else {
                0xFFu8
            }));
        }
        assert(name1 =~= name) by {
            assert forall|i: int| 0 <= i < nl implies name1[i] == name[i] by {
                assert(bytes[a + (24 + i)] == full[24 + i]);
                assert(full.subrange(24, 24 + nl)[i] == full[24 + i]);
            }
        }
        assert(value1 =~= value) by {
            assert forall|i: int| 0 <= i < value.len() implies value1[i] == value[i] by {
                assert(bytes[a + (24 + nl + i)] == full[24 + nl + i]);
                assert(full.subrange(24 + nl, len)[i] == full[24 + nl + i]);
            }
        }
    }
    if model::record_crc(name1, value1) == model::record_crc(name, value) {
        let r = Rec {
            sound: true,
            name: name1,
            value: value1,
            status: KvStatus::PreWrite,
            torn_len: 0,
            pad: 0,
        };
        assert(model::record_header(name1, value1) == model::record_header(name, value));
        r
    } else {
        let r = Rec {
            sound: false,
            name,
            value,
            status: KvStatus::PreWrite,
            torn_len: len,
            pad: 0,
        };
        if len == 24 {
            assert(name1 =~= name);
            assert(value1 =~= value);
        }
        let hdr = bytes.subrange(a, a + 24);
        assert(codec::le32(hdr, 8) == codec::le32(bytes, a + 8));
        image::lemma_status_bytes();
        r
    }
}

// ------------------------------------------------------------------ what is left of it

/// A record behind the records of a sector is one more record of it.
proof fn lemma_append_rec(
    b1: Seq<u8>,
    b2: Seq<u8>,
    geo: Geo,
    d: Map<int, Sect>,
    at: int,
    r: Rec,
)
    requires
        model::geo_ok(geo),
        image::image(b1, geo, d),
        db::is_sector(geo, at),
        d[at].store == SectorStoreStatus::Empty || d[at].store == SectorStoreStatus::Using,
        image::size(r) >= 24,
        16 + image::span(d[at].recs) + image::size(r) + 88 < geo.sec,
        !r.sound && d[at].recs.len() > 0 ==> r.torn_len > 24,
        b2.len() == b1.len(),
        image::rec_at(b2, geo, at + 16 + image::span(d[at].recs), r),
        b2[at] == status::status_byte(2),
        forall|j: int|
            0 <= j < b1.len() && j != at && !(at + 16 + image::span(d[at].recs) <= j < at + 16
                + image::span(d[at].recs) + image::size(r)) ==> #[trigger] b2[j] == b1[j],
    ensures
        image::image(b2, geo, d.insert(at, change::appended(d[at], r))),
{
    let s = d[at];
    let s2 = change::appended(s, r);
    let len = image::size(r);
    let a = at + 16 + image::span(s.recs);
    assert(image::sector_at(b1, geo, at, s));
    image::lemma_open_sector(b1, geo, at, s);
    image::lemma_reach(s.recs, 0, s.recs.len() as int);
    db::lemma_geo(geo);
    assert forall|k: int| 0 <= k <= s.recs.len() implies #[trigger] image::reach(s2.recs, k)
        == image::reach(s.recs, k) by {
        image::lemma_reach_same(s2.recs, s.recs, k);
    }
    assert(image::reach(s2.recs, s.recs.len() as int) == image::span(s.recs));
    assert(image::span(s2.recs) == image::span(s.recs) + len);
    assert(image::sector_at(b2, geo, at, s2)) by {
        assert forall|k: int| 0 <= k < s2.recs.len() implies image::rec_at(
            b2,
            geo,
            image::place(at, s2.recs, k),
            #[trigger] s2.recs[k],
        ) by {
            assert(image::reach(s2.recs, k) == image::reach(s.recs, k));
            if k < s.recs.len() {
                image::lemma_place(b1, geo, at, s, k);
                image::lemma_rec_frame(b1, b2, geo, image::place(at, s.recs, k), s.recs[k]);
            }
        }
        assert(codec::le32(b2, at + 4) == codec::le32(b1, at + 4));
        assert(codec::le32(b2, at + 8) == codec::le32(b1, at + 8));
        assert(image::sect_ok(geo, s2)) by {
            assert forall|k: int| 0 < k < s2.recs.len() && !(#[trigger] s2.recs[k]).sound implies
                s2.recs[k].torn_len > 24 by {
                if k < s.recs.len() {
                    assert(!s.recs[k].sound);
                }
            }
        }
        reveal(image::sector_at);
    }
    image::lemma_image_frame(b1, b2, geo, d, at, s2);
}

/// The sector `s` with one more byte of padding behind its last record.
pub open spec fn padded_on(s: Sect) -> Sect {
    let i = s.recs.len() - 1;
    Sect { recs: s.recs.update(i, Rec { pad: s.recs[i].pad + 1, ..s.recs[i] }), ..s }
}

/// A status behind the records of a sector, with nothing behind it, is padding.
proof fn lemma_pad(b1: Seq<u8>, b2: Seq<u8>, geo: Geo, d: Map<int, Sect>, at: int)
    requires
        model::geo_ok(geo),
        image::image(b1, geo, d),
        db::is_sector(geo, at),
        d[at].recs.len() > 0,
        16 + image::span(d[at].recs) + 1 + 88 < geo.sec,
        b2.len() == b1.len(),
        b2[at + 16 + image::span(d[at].recs)] == status::status_byte(1),
        forall|j: int|
            0 <= j < b1.len() && j != at + 16 + image::span(d[at].recs) ==> #[trigger] b2[j]
                == b1[j],
    ensures
        image::image(b2, geo, d.insert(at, padded_on(d[at]))),
        image::span(padded_on(d[at]).recs) == image::span(d[at].recs) + 1,
{
    let s = d[at];
    let s2 = padded_on(s);
    let last = s.recs.len() - 1;
    let e = at + 16 + image::span(s.recs);
    assert(image::sector_at(b1, geo, at, s));
    image::lemma_open_sector(b1, geo, at, s);
    image::lemma_reach(s.recs, 0, s.recs.len() as int);
    assert forall|k: int| 0 <= k <= last implies #[trigger] image::reach(s2.recs, k)
        == image::reach(s.recs, k) by {
        image::lemma_reach_same(s2.recs, s.recs, k);
    }
    assert(image::reach(s2.recs, last) == image::reach(s.recs, last));
    assert(image::span(s2.recs) == image::span(s.recs) + 1);
    assert(image::sector_at(b2, geo, at, s2)) by {
        assert forall|k: int| 0 <= k < s2.recs.len() implies image::rec_at(
            b2,
            geo,
            image::place(at, s2.recs, k),
            #[trigger] s2.recs[k],
        ) by {
            assert(image::reach(s2.recs, k) == image::reach(s.recs, k));
            let c = image::place(at, s.recs, k);
            image::lemma_place(b1, geo, at, s, k);
            image::lemma_reach(s.recs, k, s.recs.len() as int);
            image::lemma_rec_frame(b1, b2, geo, c, s.recs[k]);
            if k == last {
                assert(c + image::size(s.recs[k]) == e);
                lemma_more_pad(b2, geo, c, s.recs[k]);
            }
        }
        assert(codec::le32(b2, at + 4) == codec::le32(b1, at + 4));
        assert(codec::le32(b2, at + 8) == codec::le32(b1, at + 8));
        assert(image::sect_ok(geo, s2)) by {
            assert forall|k: int| 0 < k < s2.recs.len() && !(#[trigger] s2.recs[k]).sound implies
                s2.recs[k].torn_len > 24 by {
                assert(!s.recs[k].sound);
            }
        }
        reveal(image::sector_at);
    }
    image::lemma_image_frame(b1, b2, geo, d, at, s2);
}

/// A record with one more byte of padding.
proof fn lemma_more_pad(bytes: Seq<u8>, geo: Geo, a: int, r: Rec)
    requires
        image::rec_at(bytes, geo, a, r),
        a + image::size(r) < bytes.len(),
        bytes[a + image::size(r)] == status::status_byte(1),
    ensures
        image::rec_at(bytes, geo, a, Rec { pad: r.pad + 1, ..r }),
{
}

/// The record of which nothing is left but, at most, its status.
pub open spec fn blank_rec() -> Rec {
    Rec {
        sound: false,
        name: Seq::empty(),
        value: Seq::empty(),
        status: KvStatus::Unused,
        torn_len: 24,
        pad: 0,
    }
}

/// A place that is erased but for a status, at most, holds a record without a header.
proof fn lemma_blank_rec(bytes: Seq<u8>, geo: Geo, a: int)
    requires
        model::geo_ok(geo),
        geo.max >= 24,
        0 <= a,
        a + 24 <= bytes.len(),
        bytes[a] == 0xFF || bytes[a] == status::status_byte(1),
        forall|j: int| a + 1 <= j < a + 24 ==> #[trigger] bytes[j] == 0xFF,
    ensures
        image::rec_at(bytes, geo, a, blank_rec()),
{
    let hdr = bytes.subrange(a, a + 24);
    assert(codec::le32(hdr, 8) == codec::le32(bytes, a + 8));
    assert(bytes[a + 1] == 0xFF && bytes[a + 2] == 0xFF && bytes[a + 3] == 0xFF);
    assert(bytes[a + 8] == 0xFF && bytes[a + 9] == 0xFF && bytes[a + 10] == 0xFF && bytes[a + 11]
        == 0xFF);
    assert(codec::le32(bytes, a + 8) == 0xFFFF_FFFF);
    assert forall|p: int| a + 5 <= p && p + 4 <= a + 24 implies codec::le32(bytes, p)
        != KV_MAGIC_WORD by {
        if codec::le32(bytes, p) == KV_MAGIC_WORD {
            image::lemma_magic_bytes(bytes, p);
            assert(bytes[p] == 0xFF);
        }
    }
}

/// The medium after the power was lost while a record was written to the erased place at
/// `a`: `c` says how far it came.
pub open spec fn left_behind(b1: Seq<u8>, a: int, name: Seq<u8>, value: Seq<u8>, c: int) -> Seq<u8> {
    if c <= 0 {
        b1
    } else if c == 1 {
        b1.update(a, status::status_byte(1))
    } else {
        codec::splice(b1, a, half_bytes(name, value, c))
    }
}

/// Writing on: from `c` bytes of a record to `c1` bytes.
proof fn lemma_write_on(
    b1: Seq<u8>,
    a: int,
    name: Seq<u8>,
    value: Seq<u8>,
    c: int,
    c1: int,
    data: Seq<u8>,
)
    requires
        1 <= c <= c1 <= model::record_len(name, value),
        0 <= a,
        a + model::record_len(name, value) <= b1.len(),
        data == change::rec_bytes(name, value).subrange(c, c1),
    ensures
        codec::splice(codec::splice(b1, a, half_bytes(name, value, c)), a + c, data)
            == codec::splice(b1, a, half_bytes(name, value, c1)),
{
    change::lemma_rec_bytes(name, value);
    let full = change::rec_bytes(name, value);
    let x = codec::splice(codec::splice(b1, a, half_bytes(name, value, c)), a + c, data);
    let y = codec::splice(b1, a, half_bytes(name, value, c1));
    assert forall|j: int| 0 <= j < b1.len() implies x[j] == y[j] by {
        if a + c <= j < a + c1 {
            assert(data[j - a - c] == full[j - a]);
        }
    }
    assert(x =~= y);
}

/// Writing a record to an erased place on a medium that may lose its power.
proof fn lemma_write_cut(m: Medium, a: int, name: Seq<u8>, value: Seq<u8>) -> (c: int)
    requires
        0 <= a,
        a + model::record_len(name, value) <= m.bytes.len(),
        forall|j: int|
            a <= j < a + model::record_len(name, value) ==> #[trigger] m.bytes[j] == 0xFF,
    ensures
        ({
            let (m1, r) = model::write_record(m, a, name, value);
            &&& m1.clears == m.clears
            &&& m1.erases == m.erases
            &&& m.flushed.len() == m.bytes.len() ==> m1.flushed.len() == m1.bytes.len()
            &&& r is Ok ==> m1.bytes == codec::splice(
                m.bytes,
                a,
                change::rec_bytes(name, value),
            )
            &&& r is Err ==> !m1.powered() && (c == 0 || c == 1 || c == 24 || c == 24 + name.len()
                || c == model::record_len(name, value)) && m1.bytes == left_behind(
                m.bytes,
                a,
                name,
                value,
                c,
            )
        }),
{
    let len = model::record_len(name, value);
    let nl = name.len() as int;
    let full = change::rec_bytes(name, value);
    let b1 = m.bytes;
    change::lemma_rec_bytes(name, value);
    image::lemma_record_header(name, value);
    let h = model::record_header(name, value);
    let m1 = flash::put_status(m, a, 1, false);
    flash::lemma_clears_erased(m, a, seq![status::status_byte(1)]);
    if !m.powered() {
        0
    } else {
        assert(m.accepts(a, 1));
        assert(m1.bytes =~= b1.update(a, status::status_byte(1)));
        let m2 = m1.program(a + 4, h.subrange(4, 24), false);
        flash::lemma_clears_erased(m1, a + 4, h.subrange(4, 24));
        if !m1.powered() {
            1
        } else {
            assert(m1.accepts(a + 4, 20));
            let w2 = codec::splice(b1, a, half_bytes(name, value, 24));
            assert forall|j: int| 0 <= j < b1.len() implies m2.bytes[j] == w2[j] by {
                if a + 4 <= j < a + 24 {
                    assert(full.subrange(4, 24)[j - a - 4] == full[j - a]);
                } else if a <= j < a + len {
                    assert(b1[j] == 0xFF);
                }
            }
            assert(m2.bytes =~= w2);
            let m3 = flash::put_data(m2, a + 24, name);
            flash::lemma_clears_erased(m2, a + 24, name);
            if nl > 0 && !m2.powered() {
                24
            } else {
                lemma_write_on(b1, a, name, value, 24, 24 + nl, name);
                assert(nl > 0 ==> m2.accepts(a + 24, nl));
                if nl == 0 {
                    assert(codec::splice(m2.bytes, a + 24, name) =~= m2.bytes);
                }
                assert(m3.bytes == codec::splice(b1, a, half_bytes(name, value, 24 + nl)));
                let m4 = flash::put_data(m3, a + 24 + nl, value);
                flash::lemma_clears_erased(m3, a + 24 + nl, value);
                if value.len() > 0 && !m3.powered() {
                    24 + nl
                } else {
                    lemma_write_on(b1, a, name, value, 24 + nl, len, value);
                    assert(value.len() > 0 ==> m3.accepts(a + 24 + nl, value.len() as int));
                    if value.len() == 0 {
                        assert(codec::splice(m3.bytes, a + 24 + nl, value) =~= m3.bytes);
                    }
                    assert(m4.bytes == codec::splice(b1, a, half_bytes(name, value, len)));
                    let m5 = flash::put_status(m4, a, 2, true);
                    assert(m4.bytes[a] == status::status_byte(1));
                    flash::lemma_clears_status(m4, a, 1, 2);
                    if m4.powered() {
                        assert(m4.accepts(a, 1));
                        assert(m5.bytes =~= codec::splice(b1, a, full));
                    }
                    len
                }
            }
        }
    }
}

/// What a power loss leaves of a record that was to be added to the sector at `at`:
/// nothing, a record without a header where it is the first, padding where it is not, a
/// record with a header, or the whole record.
pub open spec fn left_of(
    d: Map<int, Sect>,
    at: int,
    name: Seq<u8>,
    value: Seq<u8>,
    d1: Map<int, Sect>,
) -> bool {
    ||| d1 == d
    ||| d[at].recs.len() == 0 && d1 == d.insert(at, change::appended(d[at], blank_rec()))
    ||| d[at].recs.len() > 0 && d1 == d.insert(at, padded_on(d[at]))
    ||| exists|r: Rec| #[trigger]
        half(r, model::record_len(name, value)) && d1 == d.insert(
            at,
            change::appended(d[at], r),
        )
    ||| d1 == d.insert(at, change::appended(d[at], change::live_rec(name, value)))
}

/// What is left of a record after `left_behind`.
proof fn lemma_left(
    b0: Seq<u8>,
    b1: Seq<u8>,
    geo: Geo,
    d: Map<int, Sect>,
    at: int,
    name: Seq<u8>,
    value: Seq<u8>,
    c: int,
) -> (d1: Map<int, Sect>)
    requires
        model::geo_ok(geo),
        geo.max <= b0.len() <= 0xFFFF_FFFF,
        image::image(b0, geo, d),
        db::is_sector(geo, at),
        d[at].store == SectorStoreStatus::Empty || d[at].store == SectorStoreStatus::Using,
        name.len() <= KV_NAME_MAX,
        16 + image::span(d[at].recs) + model::record_len(name, value) + 88 < geo.sec,
        b1 == (if d[at].store == SectorStoreStatus::Empty {
            b0.update(at, status::status_byte(2))
        } else {
            b0
        }),
        c == 0 || c == 1 || 24 <= c <= model::record_len(name, value),
    ensures
        image::image(
            left_behind(b1, at + 16 + image::span(d[at].recs), name, value, c),
            geo,
            d1,
        ),
        left_of(d, at, name, value, d1),
{
    let s = d[at];
    let len = model::record_len(name, value);
    let a = at + 16 + image::span(s.recs);
    let b2 = left_behind(b1, a, name, value, c);
    assert(image::sector_at(b0, geo, at, s));
    image::lemma_open_sector(b0, geo, at, s);
    image::lemma_reach(s.recs, 0, s.recs.len() as int);
    db::lemma_geo(geo);
    assert(b2.len() == b0.len());
    assert(b2[at] == status::status_byte(2)) by {
        assert(b0[at] == status::status_byte(def::store_index_of(s.store)));
    }
    if s.recs.len() == 0 && c <= 1 {
        assert forall|j: int| a + 1 <= j < a + 24 implies #[trigger] b2[j] == 0xFF by {
            assert(b0[j] == 0xFF);
        }
        assert(b0[a] == 0xFF);
        lemma_blank_rec(b2, geo, a);
        lemma_append_rec(b0, b2, geo, d, at, blank_rec());
        let d1 = d.insert(at, change::appended(s, blank_rec()));
        d1
    } else if c == 0 {
        assert(b2 =~= b0);
        d
    } else if c == 1 {
        lemma_pad(b0, b2, geo, d, at);
        let d1 = d.insert(at, padded_on(s));
        d1
    } else {
        assert(b2.subrange(a, a + len) =~= half_bytes(name, value, c));
        let r = lemma_half_rec(b2, geo, a, name, value, c);
        lemma_append_rec(b0, b2, geo, d, at, r);
        d.insert(at, change::appended(s, r))
    }
}

/// Creating a record in a sector with room on a medium that may lose its power.
pub proof fn lemma_create_cut(
    st: KvState,
    d: Map<int, Sect>,
    at: int,
    info: SecInfo,
    name: Seq<u8>,
    value: Seq<u8>,
) -> (d1: Map<int, Sect>)
    requires
        image::holds_image(st.m, st.geo, d),
        db::is_sector(st.geo, at),
        d[at].store == SectorStoreStatus::Empty || d[at].store == SectorStoreStatus::Using,
        info.store == d[at].store,
        info.at == at,
        info.remain == st.geo.sec - 16 - image::span(d[at].recs),
        info.empty == at + 16 + image::span(d[at].recs),
        name.len() <= KV_NAME_MAX,
        16 + image::span(d[at].recs) + model::record_len(name, value) + 88 < st.geo.sec,
    ensures
        ({
            let (st1, r) = model::create_in(st, info, name, value);
            &&& st1 == (KvState { m: st1.m, ..st })
            &&& st1.m.bytes.len() == st.m.bytes.len()
            &&& image::holds_image(st1.m, st.geo, d1)
            &&& left_of(d, at, name, value, d1)
            &&& r is Ok ==> d1 == d.insert(
                at,
                change::appended(d[at], change::live_rec(name, value)),
            )
            &&& r is Err ==> !st1.m.powered()
        }),
{
    reveal(model::create_in);
    let geo = st.geo;
    let s = d[at];
    let len = model::record_len(name, value);
    let m = st.m;
    let a = info.empty;
    assert(image::sector_at(m.bytes, geo, at, s));
    image::lemma_open_sector(m.bytes, geo, at, s);
    image::lemma_reach(s.recs, 0, s.recs.len() as int);
    let (m1, r1) = model::note_use(m, info, len);
    if s.store == SectorStoreStatus::Empty && !m.powered() {
        d
    } else {
        if s.store == SectorStoreStatus::Empty {
            flash::lemma_clears_status(m, at, 1, 2);
            assert(m.accepts(at, 1));
            assert(m1.bytes =~= m.bytes.update(at, status::status_byte(2)));
        }
        assert(r1 == Ok::<bool, FdbError>(false));
        assert forall|j: int| a <= j < a + len implies #[trigger] m1.bytes[j] == 0xFF by {
            assert(m.bytes[j] == 0xFF);
        }
        let c = lemma_write_cut(m1, a, name, value);
        let (m2, r2) = model::write_record(m1, a, name, value);
        if r2 is Ok {
            change::lemma_append(m.bytes, geo, d, at, name, value);
            change::lemma_rec_bytes(name, value);
            assert(m2.bytes =~= change::with_record(m.bytes, at, s, name, value));
            d.insert(at, change::appended(s, change::live_rec(name, value)))
        } else {
            lemma_left(m.bytes, m1.bytes, geo, d, at, name, value, c)
        }
    }
}

/// What is read of a record to be copied.
proof fn lemma_piece(
    m: Medium,
    b1: Seq<u8>,
    src: int,
    a: int,
    r: Rec,
    done: int,
    size: int,
    buf: Seq<u8>,
)
    requires
        r.sound,
        image::sound_at(b1, src, r),
        0 <= a,
        a + image::body(r) <= b1.len(),
        src + image::body(r) <= a || a + image::body(r) <= src,
        0 <= done,
        0 < size <= 32,
        4 + done + size <= image::body(r),
        m.bytes == codec::splice(b1, a, half_bytes(r.name, r.value, 4 + done)),
        buf.len() == 32,
    ensures
        model::fetch_head(m, src + 4 + done, buf, size).subrange(0, size) == change::rec_bytes(
            r.name,
            r.value,
        ).subrange(4 + done, 4 + done + size),
        model::fetch_head(m, src + 4 + done, buf, size).len() == 32,
{
    let full = change::rec_bytes(r.name, r.value);
    let data = model::fetch_head(m, src + 4 + done, buf, size).subrange(0, size);
    change::lemma_rec_bytes(r.name, r.value);
    change::lemma_sound_bytes(b1, src, r);
    assert forall|k: int| 0 <= k < size implies data[k] == full.subrange(
        4 + done,
        4 + done + size,
    )[k] by {
        assert(m.bytes[src + 4 + done + k] == b1[src + 4 + done + k]);
        assert(full[4 + done + k] == b1[src + (4 + done + k)]);
    }
    assert(data =~= full.subrange(4 + done, 4 + done + size));
}

/// Copying a record to an erased place on a medium that may lose its power, of which the
/// first `4 + done` bytes are there.
#[verifier::rlimit(40)]
proof fn lemma_copy_cut(
    m: Medium,
    b1: Seq<u8>,
    src: int,
    a: int,
    r: Rec,
    done: int,
    buf: Seq<u8>,
) -> (c: int)
    requires
        r.sound,
        image::sound_at(b1, src, r),
        0 <= a,
        a + image::body(r) <= b1.len(),
        src + image::body(r) <= a || a + image::body(r) <= src,
        0 <= done <= image::body(r) - 4,
        done == 0 || done >= 20,
        m.bytes == codec::splice(b1, a, half_bytes(r.name, r.value, 4 + done)),
        buf.len() == 32,
    ensures
        ({
            let len = image::body(r);
            let (m1, res) = model::copy_data(m, src + 4, a + 4, len - 4, done, buf);
            &&& m1.budget is None <==> m.budget is None
            &&& m1.clears == m.clears
            &&& m1.erases == m.erases
            &&& m.flushed.len() == m.bytes.len() ==> m1.flushed.len() == m1.bytes.len()
            &&& res is Ok ==> m1.bytes == codec::splice(
                b1,
                a,
                half_bytes(r.name, r.value, len),
            )
            &&& res is Err ==> !m1.powered() && (c == 4 || 24 <= c <= len) && m1.bytes
                == codec::splice(b1, a, half_bytes(r.name, r.value, c))
        }),
    decreases image::body(r) - done,
{
    let len = image::body(r);
    let full = change::rec_bytes(r.name, r.value);
    change::lemma_rec_bytes(r.name, r.value);
    if done < len - 4 {
        let size = model::least(32, len - 4 - done);
        let next = model::fetch_head(m, src + 4 + done, buf, size);
        assert(m.bytes.len() == b1.len());
        let data = next.subrange(0, size);
        lemma_piece(m, b1, src, a, r, done, size, buf);
        let m1 = m.program(a + 4 + done, data, true);
        flash::lemma_clears_erased(m, a + 4 + done, data);
        if m.powered() {
            assert(m.accepts(a + 4 + done, size));
            lemma_write_on(b1, a, r.name, r.value, 4 + done, 4 + done + size, data);
            lemma_copy_cut(m1, b1, src, a, r, done + size, next)
        } else {
            4 + done
        }
    } else {
        len
    }
}

/// Copying a sound record to a sector with room on a medium that may lose its power.
#[verifier::rlimit(40)]
pub proof fn lemma_move_cut(
    m: Medium,
    geo: Geo,
    d: Map<int, Sect>,
    from: int,
    i: int,
    at: int,
    info: SecInfo,
    n: Node,
) -> (d1: Map<int, Sect>)
    requires
        image::holds_image(m, geo, d),
        db::is_sector(geo, from),
        db::is_sector(geo, at),
        from != at,
        0 <= i < d[from].recs.len(),
        d[from].recs[i].sound,
        n.at == image::place(from, d[from].recs, i),
        n.len == image::body(d[from].recs[i]),
        d[at].store == SectorStoreStatus::Empty || d[at].store == SectorStoreStatus::Using,
        info.store == d[at].store,
        info.at == at,
        info.remain == geo.sec - 16 - image::span(d[at].recs),
        info.empty == at + 16 + image::span(d[at].recs),
        16 + image::span(d[at].recs) + n.len + 88 < geo.sec,
    ensures
        ({
            let (m1, r) = model::move_body(m, n, info);
            let rec = d[from].recs[i];
            &&& m1.budget is None <==> m.budget is None
            &&& m1.bytes.len() == m.bytes.len()
            &&& image::holds_image(m1, geo, d1)
            &&& left_of(d, at, rec.name, rec.value, d1)
            &&& r is Ok ==> d1 == d.insert(
                at,
                change::appended(d[at], change::live_rec(rec.name, rec.value)),
            )
            &&& r is Err ==> !m1.powered()
        }),
{
    let s = d[at];
    let rec = d[from].recs[i];
    let name = rec.name;
    let value = rec.value;
    let len = image::body(rec);
    let a = info.empty;
    let src = n.at;
    assert(image::sector_at(m.bytes, geo, from, d[from]));
    image::lemma_place(m.bytes, geo, from, d[from], i);
    assert(image::sector_at(m.bytes, geo, at, s));
    image::lemma_open_sector(m.bytes, geo, at, s);
    image::lemma_reach(s.recs, 0, s.recs.len() as int);
    db::lemma_apart(geo, from, at);
    let (m1, r1) = model::note_use(m, info, len);
    if s.store == SectorStoreStatus::Empty && !m.powered() {
        d
    } else {
        if s.store == SectorStoreStatus::Empty {
            flash::lemma_clears_status(m, at, 1, 2);
            assert(m.accepts(at, 1));
            assert(m1.bytes =~= m.bytes.update(at, status::status_byte(2)));
        }
        assert(r1 == Ok::<bool, FdbError>(false));
        let b1 = m1.bytes;
        assert forall|j: int| a <= j < a + len implies #[trigger] b1[j] == 0xFF by {
            assert(m.bytes[j] == 0xFF);
        }
        image::lemma_rec_frame(m.bytes, b1, geo, src, rec);
        let m2 = flash::put_status(m1, a, 1, false);
        flash::lemma_clears_erased(m1, a, seq![status::status_byte(1)]);
        if !m1.powered() {
            lemma_left(m.bytes, b1, geo, d, at, name, value, 0)
        } else {
            assert(m1.accepts(a, 1));
            assert(m2.bytes =~= left_behind(b1, a, name, value, 1));
            change::lemma_rec_bytes(name, value);
            let four = codec::splice(b1, a, half_bytes(name, value, 4));
            assert(m2.bytes =~= four) by {
                assert forall|j: int| 0 <= j < b1.len() implies m2.bytes[j] == four[j] by {
                    if a <= j < a + len {
                        assert(b1[j] == 0xFF);
                    }
                }
            }
            let c = lemma_copy_cut(m2, b1, src, a, rec, 0, flash::zeros(32));
            let (m3, r3) = model::copy_data(m2, src + 4, a + 4, len - 4, 0, flash::zeros(32));
            if r3 is Err {
                let c1 = if c == 4 {
                    1
                } else {
                    c
                };
                assert(m3.bytes == left_behind(b1, a, name, value, c1));
                lemma_left(m.bytes, b1, geo, d, at, name, value, c1)
            } else {
                let m4 = flash::put_status(m3, a, 2, true);
                assert(m3.bytes[a] == status::status_byte(1));
                flash::lemma_clears_status(m3, a, 1, 2);
                if !m3.powered() {
                    assert(m4.bytes == left_behind(b1, a, name, value, len));
                    lemma_left(m.bytes, b1, geo, d, at, name, value, len)
                } else {
                    assert(m3.accepts(a, 1));
                    let full = change::rec_bytes(name, value);
                    assert(m4.bytes =~= codec::splice(b1, a, full)) by {
                        assert forall|j: int| 0 <= j < b1.len() implies m4.bytes[j]
                            == codec::splice(b1, a, full)[j] by {
                            if a < j < a + len {
                                assert(m3.bytes[j] == half_bytes(name, value, len)[j - a]);
                            }
                        }
                    }
                    change::lemma_append(m.bytes, geo, d, at, name, value);
                    assert(m4.bytes =~= change::with_record(m.bytes, at, s, name, value));
                    d.insert(at, change::appended(s, change::live_rec(name, value)))
                }
            }
        }
    }
}

} // verus!
