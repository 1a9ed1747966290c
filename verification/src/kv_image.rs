//! Images of the key-value database: what a medium holds, sector by sector and record
//! by record, and how the operations of `kv_model` read such a medium.
use vstd::prelude::*;

use crate::codec;
use crate::crc32;
use crate::db;
use crate::db::Geo;
use crate::def;
use crate::def::{KvStatus, SectorDirtyStatus, SectorStoreStatus, FAILED_ADDR, KV_NAME_MAX};
use crate::flash;
use crate::kv_model as model;
use crate::kv_model::{Node, SecInfo, KV_MAGIC_WORD, SECTOR_MAGIC_WORD, SECTOR_NOT_COMBINED};
use crate::status;
use crate::storage::Medium;

verus! {

/// A record in a sector. A sound one has a name and a value; of one that was torn by a
/// power loss only its length is known. Behind a record may lie some bytes of padding:
/// the statuses of records of which nothing else was written when the power went away.
pub struct Rec {
    pub sound: bool,
    pub name: Seq<u8>,
    pub value: Seq<u8>,
    pub status: KvStatus,
    pub torn_len: int,
    pub pad: int,
}

/// A sector: its two statuses and its records.
pub struct Sect {
    pub store: SectorStoreStatus,
    pub dirty: SectorDirtyStatus,
    pub recs: Seq<Rec>,
}

/// The length of a record.
pub open spec fn body(r: Rec) -> int {
    if r.sound {
        model::record_len(r.name, r.value)
    } else {
        r.torn_len
    }
}

/// The length of a record with its padding.
pub open spec fn size(r: Rec) -> int {
    body(r) + r.pad
}

/// Whether the padding of the record at `a` is in order.
pub open spec fn pad_at(bytes: Seq<u8>, a: int, r: Rec) -> bool {
    &&& r.pad >= 0
    &&& forall|j: int| a + body(r) <= j < a + size(r) ==> bytes[j] == status::status_byte(1)
}

/// The total length of the first `i` records.
pub open spec fn reach(recs: Seq<Rec>, i: int) -> int
    decreases i,
{
    if i <= 0 {
        0
    } else {
        reach(recs, i - 1) + size(recs[i - 1])
    }
}

/// The total length of all records.
pub open spec fn span(recs: Seq<Rec>) -> int {
    reach(recs, recs.len() as int)
}

/// The address of the `i`th record of the sector at `at`.
pub open spec fn place(at: int, recs: Seq<Rec>, i: int) -> int {
    at + 16 + reach(recs, i)
}

/// Whether a sound record stands at `a`.
pub open spec fn sound_at(bytes: Seq<u8>, a: int, r: Rec) -> bool {
    let nl = r.name.len() as int;
    &&& r.name.len() <= KV_NAME_MAX
    &&& model::record_len(r.name, r.value) <= 0xFFFF_FFFF
    &&& 0 <= a
    &&& a + size(r) <= bytes.len()
    &&& bytes[a] == status::status_byte(def::kv_index_of(r.status))
    &&& bytes[a + 1] == 0xFF
    &&& bytes[a + 2] == 0xFF
    &&& bytes[a + 3] == 0xFF
    &&& bytes.subrange(a + 4, a + 24) == model::record_header(r.name, r.value).subrange(4, 24)
    &&& bytes.subrange(a + 24, a + 24 + nl) == r.name
    &&& bytes.subrange(a + 24 + nl, a + body(r)) == r.value
    &&& pad_at(bytes, a, r)
}

/// The CRC over the lengths and the data of the record of `len` bytes at `a`.
pub open spec fn data_crc(bytes: Seq<u8>, a: int, len: int) -> u32 {
    crc32::crc32(
        crc32::crc32(
            crc32::crc32(0, bytes.subrange(a + 16, a + 20)),
            bytes.subrange(a + 20, a + 24),
        ),
        bytes.subrange(a + 24, a + len),
    )
}

/// Whether a torn record stands at `a`: one without a length that can be, which counts
/// for a header, or one with a header whose CRC is wrong. The former holds no magic word. It
/// is marked as bad when it is first read; its status is then `ErrHdr`, and `Unused` as long
/// as that is open.
pub open spec fn torn_at(bytes: Seq<u8>, geo: Geo, a: int, r: Rec) -> bool {
    let len = r.torn_len;
    &&& 0 <= a
    &&& 24 <= len
    &&& a + size(r) <= bytes.len()
    &&& pad_at(bytes, a, r)
    &&& len <= geo.max
    &&& r.status == KvStatus::ErrHdr || r.status == KvStatus::PreWrite || r.status
        == KvStatus::Unused
    &&& r.status != KvStatus::Unused ==> bytes[a] == status::status_byte(
        def::kv_index_of(r.status),
    )
    &&& bytes[a] == 0xFF || bytes[a] == status::status_byte(1) || bytes[a]
        == status::status_byte(5)
    &&& bytes[a + 1] == 0xFF
    &&& bytes[a + 2] == 0xFF
    &&& bytes[a + 3] == 0xFF
    &&& if model::node_len_ok(geo, bytes.subrange(a, a + 24)) {
        &&& len > 24
        &&& codec::le32(bytes, a + 4) == KV_MAGIC_WORD
        &&& codec::le32(bytes, a + 8) == len
        &&& data_crc(bytes, a, len) != codec::le32(bytes, a + 12)
        &&& r.status != KvStatus::Unused
    } else {
        &&& len == 24
        &&& r.status != KvStatus::PreWrite
        &&& forall|p: int|
            a + 5 <= p && p + 4 <= a + 24 ==> codec::le32(bytes, p) != KV_MAGIC_WORD
    }
}

/// Whether the record `r` stands at `a`.
pub open spec fn rec_at(bytes: Seq<u8>, geo: Geo, a: int, r: Rec) -> bool {
    if r.sound {
        sound_at(bytes, a, r)
    } else {
        torn_at(bytes, geo, a, r)
    }
}

/// Whether the header of the sector at `at` holds the statuses of `s`.
pub open spec fn header_at(bytes: Seq<u8>, at: int, s: Sect) -> bool {
    &&& bytes[at] == status::status_byte(def::store_index_of(s.store))
    &&& bytes[at + 1] == status::status_byte(def::dirty_index_of(s.dirty))
    &&& codec::le32(bytes, at + 4) == SECTOR_MAGIC_WORD
    &&& codec::le32(bytes, at + 8) == SECTOR_NOT_COMBINED
}

/// Whether the statuses and the records of a sector go together: an empty sector is
/// fresh, one in use holds records and has room left behind them. Only the first
/// record can lack its header.
pub open spec fn sect_ok(geo: Geo, s: Sect) -> bool {
    &&& s.store != SectorStoreStatus::Unused
    &&& s.dirty != SectorDirtyStatus::Unused
    &&& s.store == SectorStoreStatus::Empty <==> s.recs.len() == 0
    &&& s.store == SectorStoreStatus::Empty ==> s.dirty == SectorDirtyStatus::False
    &&& 16 + span(s.recs) + 88 < geo.sec || s.recs.len() == 0
    &&& forall|i: int|
        0 < i < s.recs.len() && !(#[trigger] s.recs[i]).sound ==> s.recs[i].torn_len > 24
}

/// Whether the sector at `at` holds `s`.
#[verifier::opaque]
pub open spec fn sector_at(bytes: Seq<u8>, geo: Geo, at: int, s: Sect) -> bool {
    &&& sect_ok(geo, s)
    &&& 0 <= at
    &&& at + geo.sec <= bytes.len()
    &&& header_at(bytes, at, s)
    &&& forall|i: int|
        0 <= i < s.recs.len() ==> rec_at(bytes, geo, place(at, s.recs, i), #[trigger] s.recs[i])
    &&& forall|j: int| at + 16 + span(s.recs) <= j < at + geo.sec ==> bytes[j] == 0xFF
}

/// Whether the medium holds the sectors of `db`, a map from sector addresses.
pub open spec fn image(bytes: Seq<u8>, geo: Geo, db: Map<int, Sect>) -> bool {
    forall|at: int| db::is_sector(geo, at) ==> sector_at(bytes, geo, at, #[trigger] db[at])
}

// ------------------------------------------------------------------ basic facts

pub proof fn lemma_reach(recs: Seq<Rec>, i: int, j: int)
    requires
        0 <= i <= j <= recs.len(),
        forall|k: int| 0 <= k < recs.len() ==> size(#[trigger] recs[k]) >= 0,
    ensures
        0 <= reach(recs, i) <= reach(recs, j),
        i < j ==> reach(recs, i) + size(recs[i]) <= reach(recs, j),
    decreases j,
{
    if i < j {
        lemma_reach(recs, i, j - 1);
        assert(size(recs[j - 1]) >= 0);
        assert(size(recs[i]) >= 0);
        if i == j - 1 {
        } else {
            assert(reach(recs, i) + size(recs[i]) <= reach(recs, j - 1));
        }
    } else if i > 0 {
        assert(size(recs[i - 1]) >= 0);
        lemma_reach(recs, i - 1, j - 1);
    }
}

/// Records of equal lengths lie at equal places.
pub proof fn lemma_reach_same(a: Seq<Rec>, b: Seq<Rec>, i: int)
    requires
        0 <= i <= a.len(),
        i <= b.len(),
        forall|k: int| 0 <= k < i ==> size(#[trigger] a[k]) == size(b[k]),
    ensures
        reach(a, i) == reach(b, i),
    decreases i,
{
    if i > 0 {
        lemma_reach_same(a, b, i - 1);
        assert(size(a[i - 1]) == size(b[i - 1]));
    }
}

/// The CRC of a stream is the CRC of its bytes.
pub proof fn lemma_crc_stream(m: Medium, at: int, total: int, done: int, buf: Seq<u8>, crc: u32)
    requires
        0 <= done <= total,
        0 <= at,
        at + total <= m.bytes.len(),
        buf.len() == 32,
    ensures
        model::crc_stream(m, at, total, done, buf, crc) == crc32::crc32(
            crc,
            m.bytes.subrange(at + done, at + total),
        ),
    decreases total - done,
{
    if done >= total {
        assert(m.bytes.subrange(at + done, at + total) =~= Seq::<u8>::empty());
        crc32::crc32_of_nothing(crc);
    } else {
        let size = model::least(32, total - done);
        let next = model::fetch_head(m, at + done, buf, size);
        let piece = m.bytes.subrange(at + done, at + done + size);
        assert(next.subrange(0, size) =~= piece);
        lemma_crc_stream(m, at, total, done + size, next, crc32::crc32(crc, piece));
        crc32::crc32_chains(crc, piece, m.bytes.subrange(at + done + size, at + total));
        assert(piece + m.bytes.subrange(at + done + size, at + total) =~= m.bytes.subrange(
            at + done,
            at + total,
        ));
    }
}

/// The CRC of the node at `a`, whose header is `hdr`.
pub proof fn lemma_node_crc(m: Medium, a: int, len: int)
    requires
        0 <= a,
        24 <= len,
        a + len <= m.bytes.len(),
        codec::le32(m.bytes, a + 8) == len,
    ensures
        model::node_header(m, a) == m.bytes.subrange(a, a + 24),
        model::node_crc(m, a, m.bytes.subrange(a, a + 24)) == data_crc(m.bytes, a, len),
{
    let hdr = m.bytes.subrange(a, a + 24);
    assert(model::node_header(m, a) =~= hdr);
    assert(codec::le32(hdr, 8) == codec::le32(m.bytes, a + 8));
    assert(hdr.subrange(16, 20) =~= m.bytes.subrange(a + 16, a + 20));
    assert(hdr.subrange(20, 24) =~= m.bytes.subrange(a + 20, a + 24));
    lemma_crc_stream(
        m,
        a + 24,
        len - 24,
        0,
        flash::zeros(32),
        crc32::crc32(crc32::crc32(0, hdr.subrange(16, 20)), hdr.subrange(20, 24)),
    );
    assert(m.bytes.subrange(a + 24 + 0, a + 24 + (len - 24)) =~= m.bytes.subrange(
        a + 24,
        a + len,
    ));
}

proof fn lemma_six(a: Seq<u8>, b: Seq<u8>, c: Seq<u8>, d: Seq<u8>, e: Seq<u8>, f: Seq<u8>)
    requires
        a.len() == 4,
        b.len() == 4,
        c.len() == 4,
        d.len() == 4,
        e.len() == 4,
        f.len() == 4,
    ensures
        (a + b + c + d + e + f).len() == 24,
        (a + b + c + d + e + f).subrange(4, 8) == b,
        (a + b + c + d + e + f).subrange(8, 12) == c,
        (a + b + c + d + e + f).subrange(12, 16) == d,
        (a + b + c + d + e + f).subrange(16, 20) == e,
        (a + b + c + d + e + f).subrange(20, 24) == f,
{
    let s = a + b + c + d + e + f;
    assert(s.subrange(4, 8) =~= b);
    assert(s.subrange(8, 12) =~= c);
    assert(s.subrange(12, 16) =~= d);
    assert(s.subrange(16, 20) =~= e);
    assert(s.subrange(20, 24) =~= f);
}

/// The fields of a record header.
#[verifier::rlimit(40)]
#[verifier::spinoff_prover]
pub proof fn lemma_record_header(name: Seq<u8>, value: Seq<u8>)
    ensures
        ({
            let h = model::record_header(name, value);
            &&& h.len() == 24
            &&& h.subrange(4, 8) == codec::le32_bytes(KV_MAGIC_WORD as int)
            &&& h.subrange(8, 12) == codec::le32_bytes(model::record_len(name, value))
            &&& h.subrange(12, 16) == codec::le32_bytes(model::record_crc(name, value) as int)
            &&& h.subrange(16, 20) == seq![name.len() as u8, 0xFFu8, 0xFFu8, 0xFFu8]
            &&& h.subrange(20, 24) == codec::le32_bytes(value.len() as int)
        }),
{
    lemma_six(
        flash::erased(4),
        codec::le32_bytes(KV_MAGIC_WORD as int),
        codec::le32_bytes(model::record_len(name, value)),
        codec::le32_bytes(model::record_crc(name, value) as int),
        seq![name.len() as u8, 0xFFu8, 0xFFu8, 0xFFu8],
        codec::le32_bytes(value.len() as int),
    );
}

proof fn lemma_sub_sub(bytes: Seq<u8>, h: Seq<u8>, a: int, i: int, j: int)
    requires
        h.len() == 24,
        4 <= i <= j <= 24,
        0 <= a,
        a + 24 <= bytes.len(),
        bytes.subrange(a + 4, a + 24) == h.subrange(4, 24),
    ensures
        bytes.subrange(a + i, a + j) == h.subrange(i, j),
{
    let sub = bytes.subrange(a + 4, a + 24);
    assert(bytes.subrange(a + i, a + j) =~= sub.subrange(i - 4, j - 4));
    assert(h.subrange(i, j) =~= h.subrange(4, 24).subrange(i - 4, j - 4));
}

/// The fields of a record header where it stands, as the words that they are.
pub proof fn lemma_header_fields(bytes: Seq<u8>, a: int, name: Seq<u8>, value: Seq<u8>)
    requires
        name.len() <= KV_NAME_MAX,
        model::record_len(name, value) <= 0xFFFF_FFFF,
        0 <= a,
        a + 24 <= bytes.len(),
        bytes.subrange(a + 4, a + 24) == model::record_header(name, value).subrange(4, 24),
    ensures
        codec::le32(bytes, a + 4) == KV_MAGIC_WORD,
        codec::le32(bytes, a + 8) == model::record_len(name, value),
        codec::le32(bytes, a + 12) == model::record_crc(name, value),
        bytes[a + 16] == name.len(),
        bytes.subrange(a + 16, a + 20) == seq![name.len() as u8, 0xFFu8, 0xFFu8, 0xFFu8],
        bytes.subrange(a + 20, a + 24) == codec::le32_bytes(value.len() as int),
        codec::le32(bytes, a + 20) == value.len(),
{
    let h = model::record_header(name, value);
    lemma_record_header(name, value);
    lemma_sub_sub(bytes, h, a, 4, 8);
    lemma_sub_sub(bytes, h, a, 8, 12);
    lemma_sub_sub(bytes, h, a, 12, 16);
    lemma_sub_sub(bytes, h, a, 16, 20);
    lemma_sub_sub(bytes, h, a, 20, 24);
    codec::le32_round_trip(KV_MAGIC_WORD as int, bytes, a + 4);
    codec::le32_round_trip(model::record_len(name, value), bytes, a + 8);
    codec::le32_round_trip(model::record_crc(name, value) as int, bytes, a + 12);
    codec::le32_round_trip(value.len() as int, bytes, a + 20);
    assert(bytes.subrange(a + 16, a + 20)[0] == bytes[a + 16]);
}

/// The fields of the header of a sound record.
pub proof fn lemma_header_words(bytes: Seq<u8>, a: int, r: Rec)
    requires
        r.sound,
        sound_at(bytes, a, r),
    ensures
        codec::le32(bytes, a + 4) == KV_MAGIC_WORD,
        codec::le32(bytes, a + 8) == body(r),
        codec::le32(bytes, a + 12) == model::record_crc(r.name, r.value),
        bytes[a + 16] == r.name.len(),
        bytes.subrange(a + 16, a + 20) == seq![r.name.len() as u8, 0xFFu8, 0xFFu8, 0xFFu8],
        bytes.subrange(a + 20, a + 24) == codec::le32_bytes(r.value.len() as int),
        codec::le32(bytes, a + 20) == r.value.len(),
{
    lemma_header_fields(bytes, a, r.name, r.value);
}

/// The CRC of a sound record is the one that it claims.
pub proof fn lemma_sound_crc(bytes: Seq<u8>, a: int, r: Rec)
    requires
        r.sound,
        sound_at(bytes, a, r),
    ensures
        data_crc(bytes, a, body(r)) == model::record_crc(r.name, r.value),
{
    lemma_header_words(bytes, a, r);
    let nl = r.name.len() as int;
    let c = crc32::crc32(
        crc32::crc32(0, bytes.subrange(a + 16, a + 20)),
        bytes.subrange(a + 20, a + 24),
    );
    crc32::crc32_chains(c, r.name, r.value);
    assert(bytes.subrange(a + 24, a + body(r)) =~= r.name + r.value) by {
        let x = bytes.subrange(a + 24, a + body(r));
        let n = bytes.subrange(a + 24, a + 24 + nl);
        let v = bytes.subrange(a + 24 + nl, a + body(r));
        assert(x =~= n + v);
    }
}

/// The status in a header whose first byte is a status byte.
pub proof fn lemma_node_status(hdr: Seq<u8>, s: KvStatus)
    requires
        hdr.len() >= 1,
        hdr[0] == status::status_byte(def::kv_index_of(s)),
    ensures
        model::node_status(hdr) == s,
{
    assert(hdr.subrange(0, 1) =~= seq![status::status_byte(def::kv_index_of(s))]);
    status::status_round_trip_one_byte(def::kv_index_of(s), 6);
}

/// Whether a node object shows the sound record `r` at `a`.
pub open spec fn shows(n: Node, a: int, r: Rec) -> bool {
    &&& n.status == r.status
    &&& n.crc_ok
    &&& n.len == body(r)
    &&& n.at == a
    &&& n.name_len == r.name.len()
    &&& n.name.len() == KV_NAME_MAX
    &&& n.name.subrange(0, n.name_len) == r.name
    &&& n.value_len == r.value.len()
    &&& n.value_at == a + 24 + r.name.len()
}

/// Reading a sound record shows it, and changes nothing.
pub proof fn lemma_read_sound(m: Medium, geo: Geo, a: int, r: Rec, n: Node)
    requires
        r.sound,
        sound_at(m.bytes, a, r),
        body(r) <= geo.max,
        m.bytes.len() <= 0xFFFF_FFFF,
        n.at == a,
        n.name.len() == KV_NAME_MAX,
    ensures
        model::after_read(m, geo, a) == m,
        shows(model::read_node(m, geo, n), a, r),
{
    reveal(model::read_node);
    reveal(model::after_read);
    let hdr = m.bytes.subrange(a, a + 24);
    let nl = r.name.len() as int;
    lemma_header_words(m.bytes, a, r);
    lemma_sound_crc(m.bytes, a, r);
    lemma_node_crc(m, a, body(r));
    assert(codec::le32(hdr, 8) == codec::le32(m.bytes, a + 8));
    assert(codec::le32(hdr, 12) == codec::le32(m.bytes, a + 12));
    assert(codec::le32(hdr, 20) == codec::le32(m.bytes, a + 20));
    assert(hdr[0] == m.bytes[a]);
    assert(hdr[16] == m.bytes[a + 16]);
    lemma_node_status(hdr, r.status);
    let x = model::read_node(m, geo, n);
    let name = model::fetch_head(m, a + 24, n.name, nl);
    assert(name.len() == KV_NAME_MAX);
    assert(name.subrange(0, nl) =~= r.name) by {
        assert(m.fetch(a + 24, n.name.subrange(0, nl)) =~= m.bytes.subrange(
            a + 24,
            a + 24 + nl,
        ));
    }
    assert(x.name.subrange(0, nl) =~= r.name) by {
        assert forall|k: int| 0 <= k < nl implies x.name[k] == r.name[k] by {
            assert(name.subrange(0, nl)[k] == r.name[k]);
        }
    }
}

/// What a node object shows of a torn record of `len` bytes at `a`: that it is bad.
pub open spec fn shows_torn(n: Node, a: int, len: int) -> bool {
    &&& !n.crc_ok
    &&& n.status == KvStatus::ErrHdr || n.status == KvStatus::PreWrite
    &&& n.len == len
    &&& n.at == a
    &&& n.name.len() == KV_NAME_MAX
}

/// The medium after the torn record at `a` is marked as bad.
pub open spec fn settled_at(m: Medium, a: int) -> Medium {
    flash::put_status(m, a, 5, true)
}

/// Reading a torn record shows that it is bad. One whose length cannot be is marked.
pub proof fn lemma_read_torn(m: Medium, geo: Geo, a: int, r: Rec, n: Node)
    requires
        !r.sound,
        torn_at(m.bytes, geo, a, r),
        n.at == a,
        n.name.len() == KV_NAME_MAX,
    ensures
        shows_torn(model::read_node(m, geo, n), a, r.torn_len),
        r.status != KvStatus::Unused ==> model::after_read(m, geo, a) == m
            && model::read_node(m, geo, n).status == r.status,
        r.status == KvStatus::Unused ==> model::read_node(m, geo, n).status == KvStatus::ErrHdr
            && (model::after_read(m, geo, a) == m || model::after_read(m, geo, a)
            == settled_at(m, a)),
        model::node_len_ok(geo, m.bytes.subrange(a, a + 24)) ==> model::after_read(m, geo, a)
            == m,
{
    reveal(model::read_node);
    reveal(model::after_read);
    let hdr = m.bytes.subrange(a, a + 24);
    assert(model::node_header(m, a) =~= hdr);
    assert(hdr[0] == m.bytes[a]);
    assert(codec::le32(hdr, 8) == codec::le32(m.bytes, a + 8));
    assert(codec::le32(hdr, 12) == codec::le32(m.bytes, a + 12));
    if r.status != KvStatus::Unused {
        lemma_node_status(hdr, r.status);
    }
    if model::node_len_ok(geo, hdr) {
        lemma_node_crc(m, a, r.torn_len);
        let nl = model::least(hdr[16] as int, KV_NAME_MAX as int);
        let name = model::fetch_head(m, a + 24, n.name, nl);
        assert(name.len() == KV_NAME_MAX);
    }
}

// ------------------------------------------------------------ from record to record

/// Whether the word at `p` marks a node that does not start before `floor`.
pub open spec fn marks(bytes: Seq<u8>, p: int, floor: int) -> bool {
    codec::le32(bytes, p) == KV_MAGIC_WORD && p - 4 >= floor
}

proof fn lemma_window_first(bytes: Seq<u8>, start: int, i: int, floor: int, q: int)
    requires
        0 <= i <= 28,
        start + i <= q,
        forall|p: int| start + i <= p < q ==> !#[trigger] marks(bytes, p, floor),
        marks(bytes, q, floor),
    ensures
        model::mark_in_window(bytes, start, i, floor) == (if q < start + 28 {
            Some(q - 4)
        } else {
            None
        }),
    decreases 28 - i,
{
    if i < 28 {
        if start + i == q {
        } else {
            assert(!marks(bytes, start + i, floor));
            lemma_window_first(bytes, start, i + 1, floor, q);
        }
    }
}

proof fn lemma_window_none(bytes: Seq<u8>, start: int, i: int, floor: int)
    requires
        0 <= i <= 28,
        forall|p: int| start + i <= p < start + 28 ==> !#[trigger] marks(bytes, p, floor),
    ensures
        model::mark_in_window(bytes, start, i, floor) is None,
    decreases 28 - i,
{
    if i < 28 {
        assert(!marks(bytes, start + i, floor));
        lemma_window_none(bytes, start, i + 1, floor);
    }
}

/// The first mark at `start` or behind is found.
pub proof fn lemma_mark_first(bytes: Seq<u8>, start: int, end: int, floor: int, q: int)
    requires
        start <= q,
        q + 32 < end <= bytes.len(),
        forall|p: int| start <= p < q ==> !#[trigger] marks(bytes, p, floor),
        marks(bytes, q, floor),
    ensures
        model::next_mark(bytes, start, end, floor) == Some(q - 4),
    decreases end - start,
{
    lemma_window_first(bytes, start, 0, floor, q);
    if q >= start + 28 {
        lemma_mark_first(bytes, start + 28, end, floor, q);
    }
}

/// Where there is no mark none is found.
pub proof fn lemma_mark_none(bytes: Seq<u8>, start: int, end: int, floor: int)
    requires
        forall|p: int| start <= p && p + 4 <= end ==> !#[trigger] marks(bytes, p, floor),
    ensures
        model::next_mark(bytes, start, end, floor) is None,
    decreases end - start,
{
    if start + 32 < end {
        assert forall|p: int| start <= p < start + 28 implies !#[trigger] marks(
            bytes,
            p,
            floor,
        ) by {
            assert(p + 4 <= end);
        }
        lemma_window_none(bytes, start, 0, floor);
        lemma_mark_none(bytes, start + 28, end, floor);
    }
}

/// The bytes of the magic word.
pub proof fn lemma_magic_bytes(bytes: Seq<u8>, p: int)
    requires
        codec::le32(bytes, p) == KV_MAGIC_WORD,
    ensures
        bytes[p] == 0x4B,
        bytes[p + 1] == 0x56,
        bytes[p + 2] == 0x30,
        bytes[p + 3] == 0x30,
{
    let a = bytes[p] as int;
    let b = bytes[p + 1] as int;
    let c = bytes[p + 2] as int;
    let d = bytes[p + 3] as int;
    assert(a + 0x100 * b + 0x1_0000 * c + 0x100_0000 * d == 0x3030_564B);
}

/// The values of the status bytes.
pub proof fn lemma_status_bytes()
    ensures
        status::status_byte(0) == 0xFF,
        status::status_byte(1) == 0x7F,
        status::status_byte(2) == 0x3F,
        status::status_byte(3) == 0x1F,
        status::status_byte(4) == 0x0F,
        status::status_byte(5) == 0x07,
{
    assert(0xFFu8 >> 0u8 == 0xFF) by (bit_vector);
    assert(0xFFu8 >> 1u8 == 0x7F) by (bit_vector);
    assert(0xFFu8 >> 2u8 == 0x3F) by (bit_vector);
    assert(0xFFu8 >> 3u8 == 0x1F) by (bit_vector);
    assert(0xFFu8 >> 4u8 == 0x0F) by (bit_vector);
    assert(0xFFu8 >> 5u8 == 0x07) by (bit_vector);
}

/// The first four bytes of a record, or of what is erased: none of them is a byte of
/// the magic word in its place.
pub open spec fn quiet(bytes: Seq<u8>, a: int) -> bool {
    &&& bytes[a] != 0x4B
    &&& bytes[a] != 0x56
    &&& bytes[a] != 0x30
    &&& bytes[a + 1] == 0xFF
    &&& bytes[a + 2] == 0xFF
    &&& bytes[a + 3] == 0xFF
}

/// No mark stands between a record and what follows it.
proof fn lemma_no_mark_at(bytes: Seq<u8>, geo: Geo, a: int, r: Rec, p: int)
    requires
        rec_at(bytes, geo, a, r),
        quiet(bytes, a + size(r)),
        search_from(a, r) <= p < a + size(r) + 4,
    ensures
        !marks(bytes, p, search_from(a, r)),
{
    let b = a + body(r);
    let e = a + size(r);
    lemma_status_bytes();
    if marks(bytes, p, search_from(a, r)) {
        lemma_magic_bytes(bytes, p);
        if p + 3 < b {
        } else if p + 3 < e {
            assert(bytes[p + 3] == 0x7F);
        } else if p + 3 == e {
        } else if p + 2 == e {
        } else if p + 1 == e {
        } else if p == e {
        } else if p == e + 1 {
        } else if p == e + 2 {
        } else {
            assert(p == e + 3);
        }
    }
}

/// A record starts quietly.
pub proof fn lemma_rec_quiet(bytes: Seq<u8>, geo: Geo, a: int, r: Rec)
    requires
        rec_at(bytes, geo, a, r),
    ensures
        quiet(bytes, a),
{
    lemma_status_bytes();
}

/// What sector information describes the sector `s` at `at`, as far as its statuses go.
pub open spec fn heads(info: SecInfo, at: int, s: Sect) -> bool {
    &&& info.check_ok
    &&& info.store == s.store
    &&& info.dirty == s.dirty
    &&& info.at == at
    &&& info.combined == SECTOR_NOT_COMBINED
}

/// The facts of a sector that its representation consists of.
pub proof fn lemma_open_sector(bytes: Seq<u8>, geo: Geo, at: int, s: Sect)
    requires
        sector_at(bytes, geo, at, s),
    ensures
        sect_ok(geo, s),
        0 <= at,
        at + geo.sec <= bytes.len(),
        header_at(bytes, at, s),
        forall|i: int|
            0 <= i < s.recs.len() ==> rec_at(
                bytes,
                geo,
                place(at, s.recs, i),
                #[trigger] s.recs[i],
            ),
        forall|i: int| 0 <= i < s.recs.len() ==> size(#[trigger] s.recs[i]) >= 24,
        forall|j: int| at + 16 + span(s.recs) <= j < at + geo.sec ==> bytes[j] == 0xFF,
{
    reveal(sector_at);
}

/// Where the `i`th record of a sector lies.
pub proof fn lemma_place(bytes: Seq<u8>, geo: Geo, at: int, s: Sect, i: int)
    requires
        sector_at(bytes, geo, at, s),
        0 <= i < s.recs.len(),
    ensures
        rec_at(bytes, geo, place(at, s.recs, i), s.recs[i]),
        size(s.recs[i]) >= 24,
        at + 16 <= place(at, s.recs, i),
        place(at, s.recs, i) + size(s.recs[i]) == place(at, s.recs, i + 1),
        place(at, s.recs, i + 1) <= at + 16 + span(s.recs),
        at + 16 + span(s.recs) + 88 < at + geo.sec,
        at + geo.sec <= bytes.len(),
{
    lemma_open_sector(bytes, geo, at, s);
    lemma_reach(s.recs, i, s.recs.len() as int);
    lemma_reach(s.recs, i + 1, s.recs.len() as int);
}

/// Where the search behind a record of a node object starts.
pub open spec fn search_from(a: int, r: Rec) -> int {
    if r.sound || r.torn_len > 24 {
        a + body(r)
    } else {
        a + 1
    }
}

proof fn lemma_no_mark_behind(bytes: Seq<u8>, geo: Geo, a: int, r: Rec)
    requires
        rec_at(bytes, geo, a, r),
        quiet(bytes, a + size(r)),
    ensures
        forall|p: int|
            search_from(a, r) <= p < a + size(r) + 4 ==> !#[trigger] marks(
                bytes,
                p,
                search_from(a, r),
            ),
{
    assert forall|p: int| search_from(a, r) <= p < a + size(r) + 4 implies !#[trigger] marks(
        bytes,
        p,
        search_from(a, r),
    ) by {
        lemma_no_mark_at(bytes, geo, a, r, p);
    }
}

/// A record with a header has its mark.
proof fn lemma_rec_mark(bytes: Seq<u8>, geo: Geo, a: int, r: Rec)
    requires
        rec_at(bytes, geo, a, r),
        !r.sound ==> r.torn_len > 24,
    ensures
        codec::le32(bytes, a + 4) == KV_MAGIC_WORD,
{
    if r.sound {
        lemma_header_words(bytes, a, r);
    }
}

proof fn lemma_erased_unmarked(bytes: Seq<u8>, from: int, end: int, floor: int)
    requires
        forall|j: int| from <= j < end ==> bytes[j] == 0xFF,
    ensures
        forall|p: int| from <= p && p + 4 <= end ==> !#[trigger] marks(bytes, p, floor),
{
    assert forall|p: int| from <= p && p + 4 <= end implies !#[trigger] marks(bytes, p, floor) by {
        if marks(bytes, p, floor) {
            lemma_magic_bytes(bytes, p);
            assert(bytes[p] == 0xFF);
        }
    }
}

/// The node behind the `i`th record of a sector is the next record.
pub proof fn lemma_next_node_in(
    bytes: Seq<u8>,
    geo: Geo,
    at: int,
    s: Sect,
    info: SecInfo,
    i: int,
    n: Node,
)
    requires
        sector_at(bytes, geo, at, s),
        0 <= i < s.recs.len(),
        info.at == at,
        info.store == s.store,
        bytes.len() <= 0xFFFF_FFFF,
        n.at == place(at, s.recs, i),
        n.len == body(s.recs[i]),
        n.crc_ok == s.recs[i].sound,
        !n.crc_ok ==> n.status == KvStatus::PreWrite || n.status == KvStatus::ErrHdr,
    ensures
        model::next_node(bytes, geo, info, n) == (if i + 1 < s.recs.len() {
            Some(place(at, s.recs, i + 1))
        } else {
            None
        }),
{
    reveal(model::next_node);
    lemma_place(bytes, geo, at, s, i);
    let a = n.at;
    let b = place(at, s.recs, i + 1);
    let end = at + geo.sec - 16;
    let r = s.recs[i];
    let from = search_from(a, r);
    assert(s.store != SectorStoreStatus::Empty && s.recs.len() > 0 && (forall|j: int|
        at + 16 + span(s.recs) <= j < at + geo.sec ==> bytes[j] == 0xFF) && (i + 1
        < s.recs.len() && !s.recs[i + 1].sound ==> s.recs[i + 1].torn_len > 24)) by {
        lemma_open_sector(bytes, geo, at, s);
    }
    if i + 1 < s.recs.len() {
        lemma_place(bytes, geo, at, s, i + 1);
        lemma_rec_quiet(bytes, geo, b, s.recs[i + 1]);
        lemma_no_mark_behind(bytes, geo, a, r);
        lemma_rec_mark(bytes, geo, b, s.recs[i + 1]);
        assert(marks(bytes, b + 4, from));
        lemma_mark_first(bytes, from, end, from, b + 4);
    } else {
        assert(b == at + 16 + span(s.recs));
        lemma_no_mark_behind(bytes, geo, a, r);
        lemma_erased_unmarked(bytes, b, end, from);
        assert forall|p: int| from <= p && p + 4 <= end implies !#[trigger] marks(
            bytes,
            p,
            from,
        ) by {
            if p < b + 4 {
            } else {
            }
        }
        lemma_mark_none(bytes, from, end, from);
    }
}

// ------------------------------------------------------------------------- framing

/// Whether two media agree on the bytes from `lo` to `hi`.
pub open spec fn same_on(b1: Seq<u8>, b2: Seq<u8>, lo: int, hi: int) -> bool {
    &&& b1.len() == b2.len()
    &&& forall|j: int| lo <= j < hi ==> #[trigger] b2[j] == b1[j]
}

proof fn lemma_same_sub(b1: Seq<u8>, b2: Seq<u8>, lo: int, hi: int)
    requires
        0 <= lo <= hi <= b1.len(),
        same_on(b1, b2, lo, hi),
    ensures
        b1.subrange(lo, hi) == b2.subrange(lo, hi),
{
    assert(b1.subrange(lo, hi) =~= b2.subrange(lo, hi));
}

proof fn lemma_same_word(b1: Seq<u8>, b2: Seq<u8>, lo: int, hi: int, p: int)
    requires
        same_on(b1, b2, lo, hi),
        lo <= p,
        p + 4 <= hi,
    ensures
        codec::le32(b1, p) == codec::le32(b2, p),
{
    assert(b2[p] == b1[p]);
    assert(b2[p + 1] == b1[p + 1]);
    assert(b2[p + 2] == b1[p + 2]);
    assert(b2[p + 3] == b1[p + 3]);
}

/// A record is where its bytes are.
pub proof fn lemma_rec_frame(b1: Seq<u8>, b2: Seq<u8>, geo: Geo, a: int, r: Rec)
    requires
        rec_at(b1, geo, a, r),
        same_on(b1, b2, a, a + size(r)),
    ensures
        rec_at(b2, geo, a, r),
{
    if r.sound {
        let nl = r.name.len() as int;
        lemma_same_sub(b1, b2, a + 4, a + 24);
        lemma_same_sub(b1, b2, a + 24, a + 24 + nl);
        lemma_same_sub(b1, b2, a + 24 + nl, a + body(r));
    } else {
        let len = r.torn_len;
        lemma_same_sub(b1, b2, a, a + 24);
        lemma_same_word(b1, b2, a, a + len, a + 4);
        lemma_same_word(b1, b2, a, a + len, a + 8);
        lemma_same_word(b1, b2, a, a + len, a + 12);
        lemma_same_sub(b1, b2, a + 16, a + 20);
        lemma_same_sub(b1, b2, a + 20, a + 24);
        lemma_same_sub(b1, b2, a + 24, a + len);
        if len == 24 {
            assert forall|p: int| a + 5 <= p && p + 4 <= a + 24 implies codec::le32(b2, p)
                != KV_MAGIC_WORD by {
                lemma_same_word(b1, b2, a, a + len, p);
            }
        }
    }
}

/// A sector is where its bytes are.
pub proof fn lemma_sector_frame(b1: Seq<u8>, b2: Seq<u8>, geo: Geo, at: int, s: Sect)
    requires
        sector_at(b1, geo, at, s),
        same_on(b1, b2, at, at + geo.sec),
        geo.sec >= 16,
    ensures
        sector_at(b2, geo, at, s),
{
    lemma_open_sector(b1, geo, at, s);
    lemma_same_word(b1, b2, at, at + geo.sec, at + 4);
    lemma_same_word(b1, b2, at, at + geo.sec, at + 8);
    assert forall|i: int| 0 <= i < s.recs.len() implies rec_at(
        b2,
        geo,
        place(at, s.recs, i),
        #[trigger] s.recs[i],
    ) by {
        lemma_place(b1, geo, at, s, i);
        lemma_rec_frame(b1, b2, geo, place(at, s.recs, i), s.recs[i]);
    }
    reveal(sector_at);
}

/// Whether two media differ within the sector at `at` only.
pub open spec fn same_but(b1: Seq<u8>, b2: Seq<u8>, geo: Geo, at: int) -> bool {
    &&& b1.len() == b2.len()
    &&& forall|j: int|
        0 <= j < b1.len() && !(at <= j < at + geo.sec) ==> #[trigger] b2[j] == b1[j]
}

/// A change within one sector changes the image in that sector.
pub proof fn lemma_image_frame(
    b1: Seq<u8>,
    b2: Seq<u8>,
    geo: Geo,
    db: Map<int, Sect>,
    at: int,
    s: Sect,
)
    requires
        geo.sec >= 16,
        image(b1, geo, db),
        db::is_sector(geo, at),
        same_but(b1, b2, geo, at),
        sector_at(b2, geo, at, s),
    ensures
        image(b2, geo, db.insert(at, s)),
{
    let d2 = db.insert(at, s);
    assert forall|x: int| db::is_sector(geo, x) implies sector_at(b2, geo, x, #[trigger] d2[x]) by {
        if x != at {
            db::lemma_apart(geo, x, at);
            assert(d2[x] == db[x]);
            assert(sector_at(b1, geo, x, db[x]));
            lemma_open_sector(b1, geo, x, db[x]);
            lemma_sector_frame(b1, b2, geo, x, db[x]);
        }
    }
}

// ------------------------------------------------------------------------- reading

/// Whether no torn record waits for its mark.
pub open spec fn settled(geo: Geo, db: Map<int, Sect>) -> bool {
    forall|at: int, i: int|
        db::is_sector(geo, at) && 0 <= i < db[at].recs.len() ==> (#[trigger] db[at].recs[i]).sound
            || db[at].recs[i].status != KvStatus::Unused
}

/// Whether `m1` is what reading leaves of `m`: it holds the same image, and is the same
/// where the image is settled.
pub open spec fn read_only(m: Medium, m1: Medium, geo: Geo, db: Map<int, Sect>) -> bool {
    &&& m1.bytes.len() == m.bytes.len()
    &&& image(m1.bytes, geo, db)
    &&& m.budget is None <==> m1.budget is None
    &&& m1.clears == m.clears
    &&& m1.erases == m.erases
    &&& m1.flushed.len() == m.flushed.len()
    &&& settled(geo, db) ==> m1 == m
}

/// What holds of a database whose medium holds the image `db`, was only ever programmed by
/// clearing bits, and was erased by whole sectors alone.
pub open spec fn holds_image(m: Medium, geo: Geo, db: Map<int, Sect>) -> bool {
    &&& model::geo_ok(geo)
    &&& geo.max <= m.bytes.len() <= 0xFFFF_FFFF
    &&& image(m.bytes, geo, db)
    &&& m.clears
    &&& db::whole_sectors(geo, m.erases)
    &&& m.flushed.len() == m.bytes.len()
}

/// Marking a torn record that waits for its mark keeps it.
proof fn lemma_settled_rec(m: Medium, geo: Geo, a: int, r: Rec)
    requires
        rec_at(m.bytes, geo, a, r),
        !r.sound,
        r.status == KvStatus::Unused,
        settled_at(m, a).bytes.len() == m.bytes.len(),
        forall|j: int|
            0 <= j < m.bytes.len() && j != a ==> #[trigger] settled_at(m, a).bytes[j]
                == m.bytes[j],
    ensures
        rec_at(settled_at(m, a).bytes, geo, a, r),
{
    let b1 = m.bytes;
    let b2 = settled_at(m, a).bytes;
    let h1 = b1.subrange(a, a + 24);
    let h2 = b2.subrange(a, a + 24);
    assert(codec::le32(h1, 8) == codec::le32(h2, 8));
    assert forall|p: int| a + 5 <= p && p + 4 <= a + r.torn_len implies codec::le32(b2, p)
        != KV_MAGIC_WORD by {
        lemma_same_word(b1, b2, a + 1, a + r.torn_len, p);
    }
}

/// Marking a torn record that waits for its mark only clears bits.
proof fn lemma_settle_clears(m: Medium, geo: Geo, a: int, r: Rec)
    requires
        rec_at(m.bytes, geo, a, r),
        !r.sound,
    ensures
        settled_at(m, a).clears == m.clears,
        settled_at(m, a).erases == m.erases,
        settled_at(m, a).flushed.len() == m.flushed.len(),
{
    assert(0xFFu8 >> 0u8 == 0xFFu8) by (bit_vector);
    assert(status::status_byte(0) == 0xFF);
    if m.bytes[a] == 0xFF {
        flash::lemma_clears_status(m, a, 0, 5);
    } else if m.bytes[a] == status::status_byte(1) {
        flash::lemma_clears_status(m, a, 1, 5);
    } else {
        flash::lemma_clears_status(m, a, 5, 5);
    }
}

/// Marking a torn record that waits for its mark keeps the image.
#[verifier::rlimit(30)]
proof fn lemma_settle(m: Medium, geo: Geo, db: Map<int, Sect>, at: int, i: int)
    requires
        holds_image(m, geo, db),
        db::is_sector(geo, at),
        0 <= i < db[at].recs.len(),
        !db[at].recs[i].sound,
        db[at].recs[i].status == KvStatus::Unused,
    ensures
        image(settled_at(m, place(at, db[at].recs, i)).bytes, geo, db),
        settled_at(m, place(at, db[at].recs, i)).bytes.len() == m.bytes.len(),
        settled_at(m, place(at, db[at].recs, i)).clears,
{
    let s = db[at];
    assert(sector_at(m.bytes, geo, at, s));
    let a = place(at, s.recs, i);
    let r = s.recs[i];
    lemma_place(m.bytes, geo, at, s, i);
    lemma_settle_clears(m, geo, a, r);
    let m1 = settled_at(m, a);
    let b1 = m.bytes;
    let b2 = m1.bytes;
    assert(b2.len() == b1.len());
    assert forall|j: int| 0 <= j < b1.len() && j != a implies #[trigger] b2[j] == b1[j] by {}
    lemma_open_sector(b1, geo, at, s);
    assert(sector_at(b2, geo, at, s)) by {
        assert forall|k: int| 0 <= k < s.recs.len() implies rec_at(
            b2,
            geo,
            place(at, s.recs, k),
            #[trigger] s.recs[k],
        ) by {
            lemma_place(b1, geo, at, s, k);
            let c = place(at, s.recs, k);
            if k < i {
                lemma_reach(s.recs, k, i);
                lemma_rec_frame(b1, b2, geo, c, s.recs[k]);
            } else if k > i {
                lemma_reach(s.recs, i, k);
                lemma_rec_frame(b1, b2, geo, c, s.recs[k]);
            } else {
                lemma_settled_rec(m, geo, a, r);
            }
        }
        lemma_same_word(b1, b2, at, at + 16, at + 4);
        lemma_same_word(b1, b2, at, at + 16, at + 8);
        reveal(sector_at);
    }
    assert(same_but(b1, b2, geo, at));
    lemma_image_frame(b1, b2, geo, db, at, s);
    assert forall|x: int| db::is_sector(geo, x) implies sector_at(b2, geo, x, #[trigger] db[x]) by {
        assert(db.insert(at, s)[x] == db[x]);
    }
}

/// What reading the `i`th record of a sector shows, and where the next record is.
pub proof fn lemma_step(
    m: Medium,
    geo: Geo,
    db: Map<int, Sect>,
    at: int,
    info: SecInfo,
    i: int,
    n: Node,
)
    requires
        holds_image(m, geo, db),
        db::is_sector(geo, at),
        info.at == at,
        info.store == db[at].store,
        0 <= i < db[at].recs.len(),
        n.at == place(at, db[at].recs, i),
        n.name.len() == KV_NAME_MAX,
    ensures
        ({
            let m1 = model::after_read(m, geo, n.at);
            let n1 = model::read_node(m, geo, n);
            let recs = db[at].recs;
            &&& read_only(m, m1, geo, db)
            &&& recs[i].sound ==> shows(n1, n.at, recs[i]) && m1 == m
            &&& !recs[i].sound ==> shows_torn(n1, n.at, recs[i].torn_len)
            &&& !recs[i].sound && recs[i].status != KvStatus::Unused ==> n1.status
                == recs[i].status
            &&& !recs[i].sound && recs[i].status == KvStatus::Unused ==> n1.status
                == KvStatus::ErrHdr
            &&& n1.len == body(recs[i])
            &&& model::next_node(m1.bytes, geo, info, n1) == (if i + 1 < recs.len() {
                Some(place(at, recs, i + 1))
            } else {
                None
            })
            &&& n.at < place(at, recs, i + 1) < at + geo.sec
            &&& at + 16 <= n.at
        }),
{
    let s = db[at];
    let r = s.recs[i];
    assert(sector_at(m.bytes, geo, at, s));
    lemma_place(m.bytes, geo, at, s, i);
    let m1 = model::after_read(m, geo, n.at);
    let n1 = model::read_node(m, geo, n);
    if r.sound {
        lemma_read_sound(m, geo, n.at, r, n);
    } else {
        lemma_read_torn(m, geo, n.at, r, n);
        if r.status == KvStatus::Unused {
            lemma_settle(m, geo, db, at, i);
            assert(!settled(geo, db)) by {
                assert(!db[at].recs[i].sound);
            }
        }
    }
    assert(sector_at(m1.bytes, geo, at, s)) by {
        assert(image(m1.bytes, geo, db));
        assert(db[at] == s);
    }
    lemma_next_node_in(m1.bytes, geo, at, s, info, i, n1);
}

/// What reading the header of a sector gives, whatever the other sectors hold.
pub proof fn lemma_one_head(m: Medium, geo: Geo, at: int, s: Sect)
    requires
        geo.sec >= 16,
        sector_at(m.bytes, geo, at, s),
    ensures
        heads(model::sector_head(m, at), at, s),
        model::sector_head(m, at).remain == 0,
        model::sector_head(m, at).empty == FAILED_ADDR,
{
    reveal(model::sector_head);
    lemma_open_sector(m.bytes, geo, at, s);
    let hdr = m.fetch(at, flash::zeros(16));
    assert(hdr =~= m.bytes.subrange(at, at + 16));
    assert(codec::le32(hdr, 4) == codec::le32(m.bytes, at + 4));
    assert(codec::le32(hdr, 8) == codec::le32(m.bytes, at + 8));
    assert(hdr.subrange(0, 1) =~= seq![status::status_byte(def::store_index_of(s.store))]);
    assert(hdr.subrange(1, 2) =~= seq![status::status_byte(def::dirty_index_of(s.dirty))]);
    status::status_round_trip_one_byte(def::store_index_of(s.store), 4);
    status::status_round_trip_one_byte(def::dirty_index_of(s.dirty), 4);
}

/// What reading the header of a sector gives.
pub proof fn lemma_head(m: Medium, geo: Geo, db: Map<int, Sect>, at: int)
    requires
        holds_image(m, geo, db),
        db::is_sector(geo, at),
    ensures
        heads(model::sector_head(m, at), at, db[at]),
        model::sector_head(m, at).remain == 0,
        model::sector_head(m, at).empty == FAILED_ADDR,
{
    assert(sector_at(m.bytes, geo, at, db[at]));
    lemma_one_head(m, geo, at, db[at]);
}

} // verus!
