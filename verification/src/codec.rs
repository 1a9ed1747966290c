//! Little-endian words in byte buffers.
use vstd::prelude::*;

verus! {

/// The 32-bit word that starts at `off` in `s`, least significant byte first.
pub open spec fn le32(s: Seq<u8>, off: int) -> int {
    s[off] + 0x100 * s[off + 1] + 0x1_0000 * s[off + 2] + 0x100_0000 * s[off + 3]
}

/// The four bytes of the 32-bit word `x`, least significant byte first.
pub open spec fn le32_bytes(x: int) -> Seq<u8> {
    seq![
        (x % 0x100) as u8,
        ((x / 0x100) % 0x100) as u8,
        ((x / 0x1_0000) % 0x100) as u8,
        ((x / 0x100_0000) % 0x100) as u8,
    ]
}

/// The signed value of a 32-bit word in two's complement.
pub open spec fn as_signed(x: int) -> int {
    if x < 0x8000_0000 {
        x
    } else {
        x - 0x1_0000_0000
    }
}

/// The 32-bit word that holds the signed value `t` in two's complement.
pub open spec fn as_word(t: int) -> int {
    if t >= 0 {
        t
    } else {
        t + 0x1_0000_0000
    }
}

/// A word written as bytes reads back as itself, wherever it stands.
pub proof fn le32_round_trip(x: int, s: Seq<u8>, off: int)
    requires
        0 <= x < 0x1_0000_0000,
        0 <= off,
        off + 4 <= s.len(),
        s.subrange(off, off + 4) == le32_bytes(x),
    ensures
        le32(s, off) == x,
{
    let b = le32_bytes(x);
    assert(s[off] == s.subrange(off, off + 4)[0]);
    assert(s[off + 1] == s.subrange(off, off + 4)[1]);
    assert(s[off + 2] == s.subrange(off, off + 4)[2]);
    assert(s[off + 3] == s.subrange(off, off + 4)[3]);
    assert(b[0] == x % 0x100);
    assert(b[1] == (x / 0x100) % 0x100);
    assert(b[2] == (x / 0x1_0000) % 0x100);
    assert(b[3] == (x / 0x100_0000) % 0x100);
}

/// Read the word at `off`.
pub fn rd_u32(buf: &[u8], off: usize) -> (r: u32)
    requires
        off + 4 <= buf@.len(),
    ensures
        r == le32(buf@, off as int),
{
    (buf[off] as u32) + 0x100 * (buf[off + 1] as u32) + 0x1_0000 * (buf[off + 2] as u32)
        + 0x100_0000 * (buf[off + 3] as u32)
}

/// Read the signed word at `off`.
pub fn rd_i32(buf: &[u8], off: usize) -> (r: i32)
    requires
        off + 4 <= buf@.len(),
    ensures
        r == as_signed(le32(buf@, off as int)),
{
    let u: u32 = rd_u32(buf, off);
    if u < 0x8000_0000 {
        u as i32
    } else {
        (u as i64 - 0x1_0000_0000) as i32
    }
}

/// The bytes of the word `x`.
pub fn u32_bytes(x: u32) -> (r: [u8; 4])
    ensures
        r@ == le32_bytes(x as int),
{
    let r: [u8; 4] = [
        (x % 0x100) as u8,
        ((x / 0x100) % 0x100) as u8,
        ((x / 0x1_0000) % 0x100) as u8,
        ((x / 0x100_0000) % 0x100) as u8,
    ];
    assert(r@ =~= le32_bytes(x as int));
    r
}

/// The word that holds the signed value `t`.
pub fn i32_word(t: i32) -> (r: u32)
    ensures
        r == as_word(t as int),
{
    if t >= 0 {
        t as u32
    } else {
        (t as i64 + 0x1_0000_0000) as u32
    }
}

/// Put the bytes of the word `x` at `off`.
pub fn put_u32(buf: &mut [u8], off: usize, x: u32)
    requires
        off + 4 <= old(buf)@.len(),
    ensures
        final(buf)@ == splice(old(buf)@, off as int, le32_bytes(x as int)),
{
    buf[off] = (x % 0x100) as u8;
    buf[off + 1] = ((x / 0x100) % 0x100) as u8;
    buf[off + 2] = ((x / 0x1_0000) % 0x100) as u8;
    buf[off + 3] = ((x / 0x100_0000) % 0x100) as u8;
    assert(buf@ =~= splice(old(buf)@, off as int, le32_bytes(x as int)));
}

/// `s` with the bytes from `at` on replaced by `data`.
pub open spec fn splice(s: Seq<u8>, at: int, data: Seq<u8>) -> Seq<u8> {
    Seq::new(s.len(), |i: int| if at <= i < at + data.len() { data[i - at] } else { s[i] })
}

} // verus!
