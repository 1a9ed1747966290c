//! What reading the key-value database gives: the value of the live record with the name that is
//! asked for, into a buffer of any length, as an object, or as text.
use vstd::prelude::*;
use vstd::utf8;

use crate::db::Geo;
use crate::def::KV_NAME_MAX;
use crate::flash;
use crate::kv_gc as gc;
use crate::kv_image as image;
use crate::kv_image::Sect;
use crate::kv_iter as iter;
use crate::kv_laws as laws;
use crate::kv_lookup as lookup;
use crate::kv_model as model;
use crate::kv_model::{KvState, Node};
use crate::storage::Medium;
use crate::text;

verus! {

/// Whether the node object `n` shows a live record with the name `key` and the value `value`.
pub open spec fn shows_live(
    geo: Geo,
    d: Map<int, Sect>,
    n: Node,
    key: Seq<u8>,
    value: Seq<u8>,
) -> bool {
    exists|a: int, j: int| #[trigger]
        gc::live_as(geo, d, a, j, key, value) && lookup::shown(d, a, j, n)
}

/// Looking up a name finds the live record with that name if there is one: the object shows
/// its name, its length, and where it and its value lie.
pub proof fn the_object_is_the_live_record(st: KvState, d: Map<int, Sect>, key: Seq<u8>)
    requires
        image::holds_image(st.m, st.geo, d),
        gc::unique(st.geo, d),
        crate::db::is_sector(st.geo, st.oldest),
    ensures
        ({
            let (m1, n, found) = model::find(st, key);
            &&& image::holds_image(m1, st.geo, d)
            &&& found <==> exists|v: Seq<u8>| #[trigger] gc::has_live(st.geo, d, key, v)
            &&& forall|v: Seq<u8>| #[trigger]
                gc::has_live(st.geo, d, key, v) ==> shows_live(st.geo, d, n, key, v)
            &&& found ==> n.name.subrange(0, n.name_len) == key && n.name_len <= KV_NAME_MAX
            &&& forall|v: Seq<u8>| #[trigger]
                gc::has_live(st.geo, d, key, v) ==> n.value_len == v.len() && n.len == 24
                    + key.len() + v.len() && n.value_at == n.at + 24 + key.len()
        }),
{
    let geo = st.geo;
    lookup::lemma_find(st, d, key);
    let (m1, n, found) = model::find(st, key);
    if found {
        let (a, j) = choose|a: int, j: int| #[trigger]
            lookup::hit(geo, d, a, j, key) && lookup::shown(d, a, j, n);
        let r = d[a].recs[j];
        laws::lemma_hit_live(geo, d, a, j, key);
        assert(image::sector_at(st.m.bytes, geo, a, d[a]));
        image::lemma_place(st.m.bytes, geo, a, d[a], j);
        assert(gc::live_as(geo, d, a, j, key, r.value));
        assert(gc::has_live(geo, d, key, r.value));
        assert forall|v: Seq<u8>| #[trigger] gc::has_live(geo, d, key, v) implies shows_live(
            geo,
            d,
            n,
            key,
            v,
        ) && v == r.value by {
            let (b, k) = laws::lemma_live_hit(geo, d, key, v);
            assert(gc::live(geo, d, b, k));
            assert(gc::live(geo, d, a, j));
            assert(a == b && j == k);
        }
    } else {
        assert forall|v: Seq<u8>| !#[trigger] gc::has_live(geo, d, key, v) by {
            if gc::has_live(geo, d, key, v) {
                let (b, k) = laws::lemma_live_hit(geo, d, key, v);
            }
        }
    }
}

/// Reading the value of an object that shows a live record copies as much of the value as the
/// buffer has room for, and leaves the rest of the buffer as it was.
pub proof fn reading_an_object_copies_the_value(
    m: Medium,
    geo: Geo,
    d: Map<int, Sect>,
    n: Node,
    key: Seq<u8>,
    value: Seq<u8>,
    buf: Seq<u8>,
)
    requires
        image::holds_image(m, geo, d),
        shows_live(geo, d, n, key, value),
    ensures
        ({
            let k = model::least(buf.len() as int, n.value_len);
            let buf1 = model::fetch_head(m, n.value_at, buf, k);
            &&& n.value_len == value.len()
            &&& k <= buf.len() && k <= value.len() && (k == buf.len() || k == value.len())
            &&& m.holds(n.value_at, k)
            &&& buf1.len() == buf.len()
            &&& forall|i: int| 0 <= i < buf.len() && i < value.len() ==> #[trigger] buf1[i] == value[i]
            &&& forall|i: int| value.len() <= i < buf.len() ==> #[trigger] buf1[i] == buf[i]
            &&& model::value_of(m, n) == value
        }),
{
    let (a, j) = choose|a: int, j: int| #[trigger]
        gc::live_as(geo, d, a, j, key, value) && lookup::shown(d, a, j, n);
    let r = d[a].recs[j];
    assert(image::sector_at(m.bytes, geo, a, d[a]));
    image::lemma_place(m.bytes, geo, a, d[a], j);
    lookup::lemma_shown_value(m, geo, d, a, j, n);
    let k = model::least(buf.len() as int, n.value_len);
    let buf1 = model::fetch_head(m, n.value_at, buf, k);
    assert(m.bytes.subrange(n.value_at, n.value_at + n.value_len) =~= value);
    assert forall|i: int| 0 <= i < buf.len() && i < value.len() implies #[trigger] buf1[i]
        == value[i] by {
        assert(m.bytes.subrange(n.value_at, n.value_at + n.value_len)[i] == m.bytes[n.value_at + i]);
    }
}

/// Getting a name copies as much of the value of the live record with that name as the buffer
/// has room for, and leaves the rest of the buffer as it was. How much is copied does not
/// depend on anything but the two lengths. Without such a record nothing is found.
pub proof fn getting_copies_the_live_value(
    st: KvState,
    d: Map<int, Sect>,
    key: Seq<u8>,
    buf: Seq<u8>,
)
    requires
        laws::fair(st, d),
    ensures
        ({
            let (m1, n, found) = model::find(st, key);
            let k = model::least(buf.len() as int, n.value_len);
            let buf1 = model::fetch_head(m1, n.value_at, buf, k);
            &&& found <==> exists|v: Seq<u8>| #[trigger] gc::has_live(st.geo, d, key, v)
            &&& forall|v: Seq<u8>| #[trigger]
                gc::has_live(st.geo, d, key, v) ==> {
                    &&& k <= buf.len() && k <= v.len() && (k == buf.len() || k == v.len())
                    &&& buf1.len() == buf.len()
                    &&& forall|i: int|
                        0 <= i < buf.len() && i < v.len() ==> #[trigger] buf1[i] == v[i]
                    &&& forall|i: int| v.len() <= i < buf.len() ==> #[trigger] buf1[i] == buf[i]
                }
        }),
{
    the_object_is_the_live_record(st, d, key);
    let (m1, n, found) = model::find(st, key);
    let k = model::least(buf.len() as int, n.value_len);
    let buf1 = model::fetch_head(m1, n.value_at, buf, k);
    assert forall|v: Seq<u8>| #[trigger] gc::has_live(st.geo, d, key, v) implies {
        &&& k <= buf.len() && k <= v.len() && (k == buf.len() || k == v.len())
        &&& buf1.len() == buf.len()
        &&& forall|i: int| 0 <= i < buf.len() && i < v.len() ==> #[trigger] buf1[i] == v[i]
        &&& forall|i: int| v.len() <= i < buf.len() ==> #[trigger] buf1[i] == buf[i]
    } by {
        reading_an_object_copies_the_value(m1, st.geo, d, n, key, v, buf);
    }
}

/// Getting a name as text gives the value of the live record with that name, a character for
/// each byte, if it has at most 128 bytes and each is from 0x20 to 0x7E. It gives nothing for
/// any other value.
pub proof fn text_is_got_where_every_byte_is_printable(st: KvState, d: Map<int, Sect>, key: Seq<u8>)
    requires
        laws::fair(st, d),
    ensures
        ({
            let (m1, n, found) = model::find(st, key);
            let value = m1.fetch(n.value_at, flash::zeros(n.value_len));
            let gives = found && n.value_len <= crate::def::STR_KV_VALUE_MAX_SIZE
                && text::all_printable(value);
            &&& gives ==> exists|v: Seq<u8>| #[trigger] gc::has_live(st.geo, d, key, v)
            &&& forall|v: Seq<u8>| #[trigger]
                gc::has_live(st.geo, d, key, v) ==> {
                    &&& gives <==> v.len() <= 128 && forall|i: int|
                        0 <= i < v.len() ==> 0x20 <= #[trigger] v[i] <= 0x7E
                    &&& text::ascii_text(value).len() == v.len()
                    &&& forall|i: int|
                        0 <= i < v.len() ==> #[trigger] text::ascii_text(value)[i] as int
                            == v[i] as int
                }
        }),
{
    the_object_is_the_live_record(st, d, key);
    let (m1, n, found) = model::find(st, key);
    let value = m1.fetch(n.value_at, flash::zeros(n.value_len));
    let gives = found && n.value_len <= crate::def::STR_KV_VALUE_MAX_SIZE && text::all_printable(
        value,
    );
    assert forall|v: Seq<u8>| #[trigger] gc::has_live(st.geo, d, key, v) implies {
        &&& gives <==> v.len() <= 128 && forall|i: int|
            0 <= i < v.len() ==> 0x20 <= #[trigger] v[i] <= 0x7E
        &&& text::ascii_text(value).len() == v.len()
        &&& forall|i: int|
            0 <= i < v.len() ==> #[trigger] text::ascii_text(value)[i] as int == v[i] as int
    } by {
        reading_an_object_copies_the_value(m1, st.geo, d, n, key, v, Seq::empty());
        assert(value == v);
        text::printable_by_number(v);
    }
}

/// The lines of live records: of each its name and its value, with where the value lies.
pub open spec fn lines(d: Map<int, Sect>, list: Seq<(int, int)>) -> Seq<char>
    decreases list.len(),
{
    if list.len() == 0 {
        Seq::empty()
    } else {
        let (a, j) = list.last();
        let r = d[a].recs[j];
        lines(d, list.drop_last()) + text::rendered(
            r.name,
            r.value,
            image::place(a, d[a].recs, j) + 24 + r.name.len(),
        )
    }
}

/// Whether a node object shows a live record, given by the address of its sector and its place.
pub open spec fn shows_at(geo: Geo, d: Map<int, Sect>, p: (int, int), n: Node) -> bool {
    gc::live(geo, d, p.0, p.1) && lookup::shown(d, p.0, p.1, n)
}

proof fn lemma_line(m: Medium, geo: Geo, d: Map<int, Sect>, p: (int, int), n: Node)
    requires
        image::holds_image(m, geo, d),
        shows_at(geo, d, p, n),
    ensures
        text::rendered(
            n.name.subrange(0, model::least(n.name_len, KV_NAME_MAX as int)),
            model::value_of(m, n),
            n.value_at,
        ) == text::rendered(
            d[p.0].recs[p.1].name,
            d[p.0].recs[p.1].value,
            image::place(p.0, d[p.0].recs, p.1) + 24 + d[p.0].recs[p.1].name.len(),
        ),
{
    assert(image::sector_at(m.bytes, geo, p.0, d[p.0]));
    image::lemma_place(m.bytes, geo, p.0, d[p.0], p.1);
    lookup::lemma_shown_value(m, geo, d, p.0, p.1, n);
}

proof fn lemma_lines(m: Medium, geo: Geo, d: Map<int, Sect>, list: Seq<(int, int)>, nodes: Seq<Node>)
    requires
        image::holds_image(m, geo, d),
        nodes.len() == list.len(),
        forall|k: int| 0 <= k < nodes.len() ==> shows_at(geo, d, list[k], #[trigger] nodes[k]),
    ensures
        crate::kvdb::rendered_nodes(m, nodes) == lines(d, list),
    decreases nodes.len(),
{
    if nodes.len() > 0 {
        let k = nodes.len() - 1;
        assert(shows_at(geo, d, list[k], nodes[k]));
        lemma_line(m, geo, d, list[k], nodes[k]);
        let (l1, n1) = (list.drop_last(), nodes.drop_last());
        assert forall|k: int| 0 <= k < n1.len() implies shows_at(geo, d, l1[k], #[trigger] n1[k]) by {
            assert(shows_at(geo, d, list[k], nodes[k]));
        }
        lemma_lines(m, geo, d, l1, n1);
    }
}

/// A dump has a line for every live record, in the order of the walk from the oldest sector on,
/// and nothing else.
pub proof fn a_dump_has_a_line_for_every_live_record(st: KvState, d: Map<int, Sect>)
    requires
        laws::fair(st, d),
    ensures
        ({
            let (m1, nodes) = model::live_nodes(st);
            let list = iter::live_list(st.geo, d, st.oldest, 0, 0);
            &&& crate::kvdb::rendered_nodes(m1, nodes) == lines(d, list)
            &&& list.no_duplicates()
            &&& forall|a: int, j: int|
                gc::live(st.geo, d, a, j) <==> #[trigger] list.contains((a, j))
            &&& forall|k: int, l: int|
                0 <= k < l < list.len() ==> iter::earlier(
                    st.geo,
                    st.oldest,
                    #[trigger] list[k],
                    #[trigger] list[l],
                )
        }),
{
    iter::iteration_gives_every_live_record_once(st, d);
    let geo = st.geo;
    let m1 = model::live_nodes(st).0;
    let nodes = model::live_nodes(st).1;
    let list = iter::live_list(geo, d, st.oldest, 0, 0);
    assert forall|k: int| 0 <= k < nodes.len() implies shows_at(
        geo,
        d,
        list[k],
        #[trigger] nodes[k],
    ) by {}
    lemma_lines(m1, geo, d, list, nodes);
    assert forall|a: int, j: int| gc::live(geo, d, a, j) <==> #[trigger] list.contains((a, j)) by {
        if list.contains((a, j)) {
            let k = choose|k: int| 0 <= k < list.len() && list[k] == (a, j);
            assert(shows_at(geo, d, list[k], nodes[k]));
        }
    }
}

/// Text comes back: after a name was set to a text of at most 128 characters, each of which has
/// a number from 0x20 to 0x7E, getting the name as text gives that text.
pub proof fn text_comes_back(st: KvState, d: Map<int, Sect>, key: Seq<u8>, s: Seq<char>) -> (d1: Map<
    int,
    Sect,
>)
    requires
        laws::fair(st, d),
        s.len() <= 128,
        forall|i: int| 0 <= i < s.len() ==> 0x20 <= #[trigger] s[i] as int <= 0x7E,
        model::set_value(st, key, utf8::encode_utf8(s)).1 is Ok,
    ensures
        ({
            let st1 = model::set_value(st, key, utf8::encode_utf8(s)).0;
            let (m1, n, found) = model::find(st1, key);
            let value = m1.fetch(n.value_at, flash::zeros(n.value_len));
            &&& laws::fair(st1, d1)
            &&& found
            &&& n.value_len <= crate::def::STR_KV_VALUE_MAX_SIZE
            &&& text::all_printable(value)
            &&& text::ascii_text(value) == s
        }),
{
    let bytes = utf8::encode_utf8(s);
    let (st1, r) = model::set_value(st, key, bytes);
    let d1 = laws::set_then_get(st, d, key, bytes);
    assert(utf8::is_ascii_chars(s)) by {
        assert forall|i: int| 0 <= i < s.len() implies '\0' <= #[trigger] s[i] <= '\u{7f}' by {
            assert(0x20 <= s[i] as int <= 0x7E);
        }
    }
    utf8::is_ascii_chars_encode_utf8(s);
    assert forall|i: int| 0 <= i < bytes.len() implies 0x20 <= #[trigger] bytes[i] <= 0x7E && bytes[i]
        as int == s[i] as int by {
        assert(0x20 <= s[i] as int <= 0x7E);
        assert(s[i] as u8 == bytes[i]);
        let c = s[i] as u32;
        assert(c as u8 as u32 == c) by (bit_vector)
            requires
                c <= 0x7E,
        ;
    }
    laws::lookup_gives_the_live_value(st1, d1, key);
    assert(gc::has_live(st1.geo, d1, key, bytes));
    text_is_got_where_every_byte_is_printable(st1, d1, key);
    let (m1, n, found) = model::find(st1, key);
    let value = m1.fetch(n.value_at, flash::zeros(n.value_len));
    assert(text::ascii_text(value) =~= s) by {
        assert forall|i: int| 0 <= i < s.len() implies text::ascii_text(value)[i] == s[i] by {
            assert(text::ascii_text(value)[i] as int == bytes[i] as int);
            assert(bytes[i] as int == s[i] as int);
        }
    }
    d1
}

} // verus!
