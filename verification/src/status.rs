//! Status-table bit encoding.
//!
//! A status table is a small bitmap at the start of a sector or node header. Each
//! successive state clears one more high bit, which works on NOR flash because
//! programming can only turn `1` bits to `0`. State 0 ("unused") is the erased
//! all-ones value and is never written.
use vstd::prelude::*;

use crate::def::status_table_size;

verus! {

/// The byte that the state with index `i` leaves in its place of the table.
pub open spec fn status_byte(i: int) -> u8 {
    0xFFu8 >> ((i % 8) as u8)
}

/// The place in the table of the byte that the state with index `i` programs.
pub open spec fn status_place(i: int) -> int {
    (i - 1) / 8
}

/// Whether bit `b` of the table, counted from the high bit of its first byte, is cleared.
pub open spec fn bit_cleared(table: Seq<u8>, b: int) -> bool {
    table[b / 8] & (0x80u8 >> ((b % 8) as u8)) == 0
}

/// The highest state among `1..=top` whose bit is cleared, or 0.
pub open spec fn highest_cleared(table: Seq<u8>, top: int) -> int
    decreases top,
{
    if top <= 0 {
        0
    } else if bit_cleared(table, top - 1) {
        top
    } else {
        highest_cleared(table, top - 1)
    }
}

/// The state that `table` holds, out of `num` states.
pub open spec fn decode_status(table: Seq<u8>, num: int) -> int {
    highest_cleared(table, num - 1)
}

/// The table that results from erasing `size` bytes of `table` and then programming state `i`.
pub open spec fn encode_status(table: Seq<u8>, size: int, i: int) -> Seq<u8> {
    let erased = Seq::new(table.len(), |k: int| if k < size { 0xFFu8 } else { table[k] });
    if i > 0 {
        let p = status_place(i);
        erased.update(p, erased[p] & status_byte(i))
    } else {
        erased
    }
}

/// Fill `table` with the bit pattern of `status_index` and return the place of the
/// one byte that differs from the erased pattern, or `None` when `status_index` is
/// 0 (nothing to program).
pub fn set_status(table: &mut [u8], status_num: usize, status_index: usize) -> (r: Option<usize>)
    requires
        status_num + 7 <= usize::MAX,
        (status_num + 7) / 8 <= old(table)@.len(),
        status_index > 0 ==> status_place(status_index as int) < old(table)@.len(),
    ensures
        final(table)@ == encode_status(
            old(table)@,
            (status_num + 7) / 8,
            status_index as int,
        ),
        status_index == 0 ==> r is None,
        status_index > 0 ==> r == Some(((status_index - 1) / 8) as usize),
{
    let size: usize = status_table_size(status_num);
    let mut k: usize = 0;
    while k < size
        invariant
            k <= size,
            size <= table@.len(),
            table@.len() == old(table)@.len(),
            forall|j: int| 0 <= j < k ==> table@[j] == 0xFF,
            forall|j: int| k <= j < table@.len() ==> table@[j] == old(table)@[j],
        decreases size - k,
    {
        table[k] = 0xFF;
        k = k + 1;
    }
    let ghost erased = Seq::new(
        old(table)@.len(),
        |k: int| if k < size { 0xFFu8 } else { old(table)@[k] },
    );
    assert(table@ =~= erased);
    if status_index > 0 {
        let byte_index: usize = (status_index - 1) / 8;
        let mask: u8 = 0xFFu8 >> ((status_index % 8) as u8);
        let b: u8 = table[byte_index];
        table[byte_index] = b & mask;
        Some(byte_index)
    } else {
        None
    }
}

/// Decode the current state from a status `table` of `status_num` states: the
/// highest state whose bit is cleared.
pub fn get_status(table: &[u8], status_num: usize) -> (r: usize)
    requires
        status_num >= 1,
        status_num >= 2 ==> (status_num - 2) / 8 < table@.len(),
    ensures
        r == decode_status(table@, status_num as int),
        r < status_num,
{
    let mut sn: usize = status_num - 1;
    while sn > 0
        invariant
            sn <= status_num - 1,
            status_num >= 2 ==> (status_num - 2) / 8 < table@.len(),
            decode_status(table@, status_num as int) == highest_cleared(table@, sn as int),
        decreases sn,
    {
        let b: usize = sn - 1;
        if table[b / 8] & (0x80u8 >> ((b % 8) as u8)) == 0 {
            return sn;
        }
        sn = b;
    }
    0
}

proof fn lemma_status_bits(i: u8)
    requires
        i < 8,
    ensures
        forall|b: u8|
            b < 8 ==> ((#[trigger] (0x80u8 >> b) & (0xFFu8 >> i) == 0) <==> b < i),
{
    assert(forall|b: u8| b < 8 ==> ((#[trigger] (0x80u8 >> b) & (0xFFu8 >> i) == 0) <==> b < i))
        by (bit_vector)
        requires
            i < 8,
    ;
}

/// Which bits a one-byte table in state `i` has cleared: the `i` highest.
pub proof fn lemma_one_byte_bits(i: int, b: int)
    requires
        0 <= i < 8,
        0 <= b < 8,
    ensures
        bit_cleared(seq![status_byte(i)], b) <==> b < i,
{
    lemma_status_bits(i as u8);
    let x = 0x80u8 >> (b as u8);
    let y = 0xFFu8 >> (i as u8);
    assert(x & y == y & x) by (bit_vector);
}

proof fn lemma_highest_one_byte(i: int, top: int)
    requires
        0 <= i < 8,
        i <= top <= 8,
    ensures
        highest_cleared(seq![status_byte(i)], top) == i,
    decreases top,
{
    if top > 0 {
        lemma_one_byte_bits(i, top - 1);
        if i < top {
            lemma_highest_one_byte(i, top - 1);
        }
    }
}

/// A one-byte table programmed to state `i` decodes to `i`.
pub proof fn status_round_trip_one_byte(i: int, num: int)
    requires
        0 <= i < num <= 8,
    ensures
        decode_status(seq![status_byte(i)], num) == i,
{
    lemma_highest_one_byte(i, num - 1);
}

proof fn lemma_erased_bit(b: u8)
    requires
        b < 8,
    ensures
        0xFFu8 & (0x80u8 >> b) != 0,
{
    assert(0xFFu8 & (0x80u8 >> b) != 0) by (bit_vector)
        requires
            b < 8,
    ;
}

proof fn lemma_highest_round_trip(table: Seq<u8>, i: int, size: int, top: int)
    requires
        0 <= i <= top,
        i % 8 != 0 || i == 0,
        top < size * 8,
        size <= table.len(),
    ensures
        highest_cleared(encode_status(table, size, i), top) == i,
    decreases top,
{
    let t = encode_status(table, size, i);
    if top > 0 {
        let b = top - 1;
        let p = status_place(i);
        if i > 0 {
            lemma_status_bits((i % 8) as u8);
            assert(0xFFu8 & status_byte(i) == status_byte(i)) by {
                let y = status_byte(i);
                assert(0xFFu8 & y == y) by (bit_vector);
            }
        }
        lemma_erased_bit((b % 8) as u8);
        if i > 0 && b / 8 == p {
            let x = 0x80u8 >> ((b % 8) as u8);
            let y = status_byte(i);
            assert(x & y == y & x) by (bit_vector);
            assert(t[b / 8] == y);
            assert(bit_cleared(t, b) <==> (b % 8) < i % 8);
        } else {
            assert(t[b / 8] == 0xFFu8);
            assert(!bit_cleared(t, b));
        }
        if i < top {
            assert(!bit_cleared(t, b));
            lemma_highest_round_trip(table, i, size, top - 1);
        }
    }
}

/// Programming a state and decoding the table gives the state back. An index that
/// is a multiple of eight, other than 0, clears no bit and is left out.
pub proof fn status_round_trip(table: Seq<u8>, num: int, i: int)
    requires
        0 <= i < num,
        i % 8 != 0 || i == 0,
        (num + 7) / 8 <= table.len(),
    ensures
        decode_status(encode_status(table, (num + 7) / 8, i), num) == i,
{
    lemma_highest_round_trip(table, i, (num + 7) / 8, num - 1);
}

/// Moving to a later state of a one-byte table only clears bits, as flash
/// programming requires.
pub proof fn status_only_clears_bits(i: int, j: int)
    requires
        0 <= i <= j < 8,
    ensures
        status_byte(i) & status_byte(j) == status_byte(j),
{
    let a = i as u8;
    let b = j as u8;
    assert((0xFFu8 >> a) & (0xFFu8 >> b) == (0xFFu8 >> b)) by (bit_vector)
        requires
            a <= b,
            b < 8,
    ;
}

} // verus!
