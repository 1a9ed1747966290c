//! CRC-32 (reflected, polynomial `0xEDB88320`), chainable over pieces of data.
use vstd::prelude::*;

verus! {

/// The reflected CRC-32 polynomial.
pub const CRC_POLY: u32 = 0xEDB8_8320;

/// One bit of polynomial division.
pub open spec fn crc_shift(c: u32) -> u32 {
    if c & 1 == 1 {
        (c >> 1) ^ CRC_POLY
    } else {
        c >> 1
    }
}

/// `n` bits of polynomial division.
pub open spec fn crc_shifts(c: u32, n: nat) -> u32
    decreases n,
{
    if n == 0 {
        c
    } else {
        crc_shift(crc_shifts(c, (n - 1) as nat))
    }
}

/// The remainder after taking in one byte.
pub open spec fn crc_absorb(c: u32, b: u8) -> u32 {
    crc_shifts(c ^ (b as u32), 8)
}

/// The remainder after taking in all of `s`.
pub open spec fn crc_fold(c: u32, s: Seq<u8>) -> u32
    decreases s.len(),
{
    if s.len() == 0 {
        c
    } else {
        crc_absorb(crc_fold(c, s.drop_last()), s.last())
    }
}

/// The CRC-32 of `s`, continuing from `crc`, the CRC-32 of what came before it.
pub open spec fn crc32(crc: u32, s: Seq<u8>) -> u32 {
    crc_fold(crc ^ 0xFFFF_FFFF, s) ^ 0xFFFF_FFFF
}

proof fn lemma_crc_fold_concat(c: u32, a: Seq<u8>, b: Seq<u8>)
    ensures
        crc_fold(c, a + b) == crc_fold(crc_fold(c, a), b),
    decreases b.len(),
{
    if b.len() == 0 {
        assert(a + b =~= a);
    } else {
        assert((a + b).drop_last() =~= a + b.drop_last());
        lemma_crc_fold_concat(c, a, b.drop_last());
    }
}

/// The CRC of two pieces taken one after the other is the CRC of the whole.
pub proof fn crc32_chains(crc: u32, a: Seq<u8>, b: Seq<u8>)
    ensures
        crc32(crc32(crc, a), b) == crc32(crc, a + b),
{
    lemma_crc_fold_concat(crc ^ 0xFFFF_FFFF, a, b);
    let f = crc_fold(crc ^ 0xFFFF_FFFF, a);
    assert((f ^ 0xFFFF_FFFF) ^ 0xFFFF_FFFF == f) by (bit_vector);
}

/// The CRC of nothing is the CRC it continues from.
pub proof fn crc32_of_nothing(crc: u32)
    ensures
        crc32(crc, Seq::<u8>::empty()) == crc,
{
    assert((crc ^ 0xFFFF_FFFF) ^ 0xFFFF_FFFF == crc) by (bit_vector);
}

/// Each bit of division is one to one.
proof fn lemma_shift_one_to_one(a: u32, b: u32)
    requires
        crc_shift(a) == crc_shift(b),
    ensures
        a == b,
{
    assert((if a & 1 == 1 {
        (a >> 1) ^ 0xEDB8_8320u32
    } else {
        a >> 1
    }) == (if b & 1 == 1 {
        (b >> 1) ^ 0xEDB8_8320u32
    } else {
        b >> 1
    }) ==> a == b) by (bit_vector);
}

proof fn lemma_shifts_one_to_one(a: u32, b: u32, n: nat)
    requires
        crc_shifts(a, n) == crc_shifts(b, n),
    ensures
        a == b,
    decreases n,
{
    if n > 0 {
        lemma_shift_one_to_one(crc_shifts(a, (n - 1) as nat), crc_shifts(b, (n - 1) as nat));
        lemma_shifts_one_to_one(a, b, (n - 1) as nat);
    }
}

proof fn lemma_absorb_one_to_one(c: u32, e: u32, b: u8, f: u8)
    requires
        crc_absorb(c, b) == crc_absorb(e, f),
    ensures
        c == e ==> b == f,
        b == f ==> c == e,
{
    lemma_shifts_one_to_one(c ^ (b as u32), e ^ (f as u32), 8);
    assert(c ^ (b as u32) == e ^ (f as u32) ==> (c == e ==> b == f) && (b == f ==> c == e))
        by (bit_vector);
}

proof fn lemma_fold_one_to_one(c: u32, e: u32, s: Seq<u8>)
    requires
        crc_fold(c, s) == crc_fold(e, s),
    ensures
        c == e,
    decreases s.len(),
{
    if s.len() > 0 {
        lemma_absorb_one_to_one(
            crc_fold(c, s.drop_last()),
            crc_fold(e, s.drop_last()),
            s.last(),
            s.last(),
        );
        lemma_fold_one_to_one(c, e, s.drop_last());
    }
}

/// Taking in a byte loses nothing: whatever came before, two different bytes lead to two
/// different CRCs, and whatever the byte, so do two different CRCs before it.
pub proof fn crc32_takes_in_every_byte(crc: u32, other: u32, b: u8, c: u8)
    ensures
        crc32(crc, seq![b]) == crc32(crc, seq![c]) ==> b == c,
        crc32(crc, seq![b]) == crc32(other, seq![b]) ==> crc == other,
{
    let x = crc ^ 0xFFFF_FFFF;
    let y = other ^ 0xFFFF_FFFF;
    lemma_one_byte(crc, b);
    lemma_one_byte(crc, c);
    lemma_one_byte(other, b);
    let (p, q, r) = (crc_absorb(x, b), crc_absorb(x, c), crc_absorb(y, b));
    assert(p ^ 0xFFFF_FFFF == q ^ 0xFFFF_FFFF ==> p == q) by (bit_vector);
    assert(p ^ 0xFFFF_FFFF == r ^ 0xFFFF_FFFF ==> p == r) by (bit_vector);
    assert(crc ^ 0xFFFF_FFFF == other ^ 0xFFFF_FFFF ==> crc == other) by (bit_vector);
    if p == q {
        lemma_absorb_one_to_one(x, x, b, c);
    }
    if p == r {
        lemma_absorb_one_to_one(x, y, b, b);
    }
}

proof fn lemma_one_byte(crc: u32, b: u8)
    ensures
        crc32(crc, seq![b]) == crc_absorb(crc ^ 0xFFFF_FFFF, b) ^ 0xFFFF_FFFF,
{
    reveal_with_fuel(crc_fold, 2);
    assert(seq![b].drop_last() =~= Seq::<u8>::empty());
}

/// The CRC shows damage: where one byte of the data is another, in one bit or in more, the CRC
/// is another.
pub proof fn crc32_shows_a_changed_byte(crc: u32, s: Seq<u8>, i: int, b: u8)
    requires
        0 <= i < s.len(),
        b != s[i],
    ensures
        crc32(crc, s.update(i, b)) != crc32(crc, s),
{
    let x = crc ^ 0xFFFF_FFFF;
    let head = s.take(i);
    let tail = s.skip(i + 1);
    let f = crc_fold(x, head);
    lemma_crc_fold_concat(x, head.push(s[i]), tail);
    lemma_crc_fold_concat(x, head.push(b), tail);
    assert(s =~= head.push(s[i]) + tail);
    assert(s.update(i, b) =~= head.push(b) + tail);
    assert(head.push(s[i]).drop_last() =~= head);
    assert(head.push(b).drop_last() =~= head);
    let (p, q) = (crc_fold(x, s), crc_fold(x, s.update(i, b)));
    assert(p ^ 0xFFFF_FFFF == q ^ 0xFFFF_FFFF ==> p == q) by (bit_vector);
    if p == q {
        lemma_fold_one_to_one(crc_absorb(f, s[i]), crc_absorb(f, b), tail);
        lemma_absorb_one_to_one(f, f, s[i], b);
    }
}

/// What is left of each bit of a byte, the lowest first, after eight bits of division.
pub open spec fn bits_left(b: u32) -> u32 {
    (if b & 0x01 != 0 { 0x7707_3096u32 } else { 0 })
        ^ (if b & 0x02 != 0 { 0xEE0E_612Cu32 } else { 0 })
        ^ (if b & 0x04 != 0 { 0x076D_C419u32 } else { 0 })
        ^ (if b & 0x08 != 0 { 0x0EDB_8832u32 } else { 0 })
        ^ (if b & 0x10 != 0 { 0x1DB7_1064u32 } else { 0 })
        ^ (if b & 0x20 != 0 { 0x3B6E_20C8u32 } else { 0 })
        ^ (if b & 0x40 != 0 { 0x76DC_4190u32 } else { 0 })
        ^ (if b & 0x80 != 0 { 0xEDB8_8320u32 } else { 0 })
}

/// The CRC is the remainder of a division: each of the eight bits of a byte, where it differs
/// from the remainder before it, adds its own share, and the rest of the remainder moves on.
/// With `crc32_of_nothing` and `crc32_chains` this says what the CRC of any data is.
pub proof fn crc32_divides_bit_by_bit(crc: u32, b: u8)
    ensures
        !crc32(crc, seq![b]) == bits_left(!crc ^ (b as u32)) ^ (!crc >> 8),
{
    lemma_one_byte(crc, b);
    reveal_with_fuel(crc_shifts, 9);
    let x = crc ^ 0xFFFF_FFFF;
    let x0 = x ^ (b as u32);
    let x1 = crc_shift(x0);
    let x2 = crc_shift(x1);
    let x3 = crc_shift(x2);
    let x4 = crc_shift(x3);
    let x5 = crc_shift(x4);
    let x6 = crc_shift(x5);
    let x7 = crc_shift(x6);
    let x8 = crc_shift(x7);
    assert(crc_shifts(x0, 8) == x8);
    assert(!(x8 ^ 0xFFFF_FFFF) == bits_left(!crc ^ (b as u32)) ^ (!crc >> 8)) by (bit_vector)
        requires
            x == crc ^ 0xFFFF_FFFF,
            x0 == x ^ (b as u32),
            x1 == crc_shift(x0),
            x2 == crc_shift(x1),
            x3 == crc_shift(x2),
            x4 == crc_shift(x3),
            x5 == crc_shift(x4),
            x6 == crc_shift(x5),
            x7 == crc_shift(x6),
            x8 == crc_shift(x7),
    ;
}

/// Compute the CRC-32 of `buf`, continuing from `crc` (0 to begin).
pub fn calc_crc32(crc: u32, buf: &[u8]) -> (r: u32)
    ensures
        r == crc32(crc, buf@),
{
    let mut c: u32 = crc ^ 0xFFFF_FFFF;
    let mut i: usize = 0;
    while i < buf.len()
        invariant
            i <= buf@.len(),
            c == crc_fold(crc ^ 0xFFFF_FFFF, buf@.take(i as int)),
        decreases buf@.len() - i,
    {
        let b: u8 = buf[i];
        let ghost start = c;
        c = c ^ (b as u32);
        let mut k: u32 = 0;
        while k < 8
            invariant
                k <= 8,
                c == crc_shifts(start ^ (b as u32), k as nat),
            decreases 8 - k,
        {
            if c & 1 == 1 {
                c = (c >> 1) ^ CRC_POLY;
            } else {
                c = c >> 1;
            }
            k = k + 1;
        }
        i = i + 1;
        proof {
            assert(buf@.take(i as int).drop_last() =~= buf@.take(i - 1));
            assert(buf@.take(i as int).last() == b);
        }
    }
    assert(buf@.take(buf@.len() as int) =~= buf@);
    c ^ 0xFFFF_FFFF
}

} // verus!
