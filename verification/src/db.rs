//! Shared database geometry validation and default-KV definitions.
use vstd::arithmetic::power2::*;
use vstd::prelude::*;

use crate::error::{FdbError, Result};

verus! {

/// Whether `x` is a power of two.
pub open spec fn power_of_two(x: int) -> bool
    decreases x,
{
    x == 1 || (x > 1 && x % 2 == 0 && power_of_two(x / 2))
}

/// Whether a database of `max_size` bytes in sectors of `sec_size` bytes can be:
///
/// * sector size and database size are non-zero,
/// * the sector size is a power of two,
/// * the database is a whole number of sectors,
/// * it has at least two sectors.
pub open spec fn geometry_ok(sec_size: int, max_size: int) -> bool {
    &&& sec_size > 0
    &&& max_size > 0
    &&& power_of_two(sec_size)
    &&& max_size % sec_size == 0
    &&& max_size / sec_size >= 2
}

/// The sizes that can be: sectors of any power of two, and two of them or any greater number.
pub proof fn any_power_of_two_and_any_number_of_sectors(k: nat, n: int, sec: int, max: int)
    ensures
        n >= 2 ==> geometry_ok(pow2(k) as int, n * pow2(k)),
        geometry_ok(sec, max) ==> exists|i: nat, j: int|
            sec == #[trigger] pow2(i) && j >= 2 && max == #[trigger] (j * sec),
{
    lemma_pow2_pos(k);
    lemma_is_power_of_two(k);
    let p = pow2(k) as int;
    if n >= 2 {
        vstd::arithmetic::div_mod::lemma_mod_multiples_basic(n, p);
        vstd::arithmetic::div_mod::lemma_div_multiples_vanish(n, p);
        vstd::arithmetic::mul::lemma_mul_is_commutative(n, p);
        assert(n * p > 0) by (nonlinear_arith)
            requires
                n >= 2,
                p > 0,
        ;
    }
    if geometry_ok(sec, max) {
        let i = lemma_power_of(sec);
        let j = max / sec;
        vstd::arithmetic::div_mod::lemma_fundamental_div_mod(max, sec);
        vstd::arithmetic::mul::lemma_mul_is_commutative(sec, j);
        assert(sec == pow2(i) && j >= 2 && max == j * sec);
    }
}

proof fn lemma_is_power_of_two(k: nat)
    ensures
        power_of_two(pow2(k) as int),
    decreases k,
{
    if k == 0 {
        lemma2_to64();
    } else {
        lemma_pow2_unfold(k);
        lemma_pow2_pos((k - 1) as nat);
        lemma_is_power_of_two((k - 1) as nat);
    }
}

proof fn lemma_power_of(x: int) -> (k: nat)
    requires
        power_of_two(x),
    ensures
        x == pow2(k),
    decreases x,
{
    if x == 1 {
        lemma2_to64();
        0
    } else {
        let k = lemma_power_of(x / 2);
        lemma_pow2_unfold(k + 1);
        k + 1
    }
}

/// Sector size and database size.
pub struct Geo {
    pub sec: int,
    pub max: int,
}

/// A geometry from its two sizes.
pub open spec fn geo_of(sec_size: u32, max_size: u32) -> Geo {
    Geo { sec: sec_size as int, max: max_size as int }
}

/// Whether a geometry is valid, and the addresses of a walk past the end of the
/// database still fit 32 bits.
pub open spec fn geo_fits(geo: Geo) -> bool {
    geometry_ok(geo.sec, geo.max) && geo.max + geo.sec <= 0xFFFF_FFFF
}

/// Whether `at` is the address of a sector.
pub open spec fn is_sector(geo: Geo, at: int) -> bool {
    at % geo.sec == 0 && 0 <= at && at + geo.sec <= geo.max
}

/// Whether everything that was erased was one whole sector each time.
#[verifier::opaque]
pub open spec fn whole_sectors(geo: Geo, erases: Set<(int, int)>) -> bool {
    forall|a: int, n: int| #[trigger] erases.contains((a, n)) ==> is_sector(geo, a) && n == geo.sec
}

/// Where nothing was erased yet, nothing but whole sectors was.
pub proof fn nothing_erased_is_whole(geo: Geo)
    ensures
        whole_sectors(geo, Set::empty()),
{
    reveal(whole_sectors);
}

/// One more sector.
pub proof fn lemma_sector_erased(geo: Geo, erases: Set<(int, int)>, at: int)
    requires
        is_sector(geo, at),
        whole_sectors(geo, erases),
    ensures
        whole_sectors(geo, erases.insert((at, geo.sec))),
{
    reveal(whole_sectors);
}

/// A sector is less than half of the address space.
pub proof fn lemma_geo(geo: Geo)
    requires
        geo_fits(geo),
    ensures
        2 * geo.sec <= geo.max,
        geo.sec < 0x8000_0000,
{
    assert(2 * geo.sec <= geo.max) by (nonlinear_arith)
        requires
            geo.sec > 0,
            geo.max / geo.sec >= 2,
    ;
}

/// Two sectors do not overlap.
pub proof fn lemma_apart(geo: Geo, a: int, b: int)
    requires
        is_sector(geo, a),
        is_sector(geo, b),
        geo.sec > 0,
        a != b,
    ensures
        a + geo.sec <= b || b + geo.sec <= a,
{
    let qa = a / geo.sec;
    let qb = b / geo.sec;
    vstd::arithmetic::div_mod::lemma_fundamental_div_mod(a, geo.sec);
    vstd::arithmetic::div_mod::lemma_fundamental_div_mod(b, geo.sec);
    if a < b {
        assert(geo.sec * qb >= geo.sec * qa + geo.sec) by (nonlinear_arith)
            requires
                geo.sec * qa < geo.sec * qb,
                geo.sec > 0,
        ;
    } else {
        assert(geo.sec * qa >= geo.sec * qb + geo.sec) by (nonlinear_arith)
            requires
                geo.sec * qb < geo.sec * qa,
                geo.sec > 0,
        ;
    }
}

/// An aligned address within the database is a sector's.
pub proof fn lemma_aligned(geo: Geo, at: int)
    requires
        geo_fits(geo),
        0 <= at < geo.max,
        at % geo.sec == 0,
    ensures
        is_sector(geo, at),
{
    let q = at / geo.sec;
    let n = geo.max / geo.sec;
    vstd::arithmetic::div_mod::lemma_fundamental_div_mod(at, geo.sec);
    vstd::arithmetic::div_mod::lemma_fundamental_div_mod(geo.max, geo.sec);
    assert(q < n && geo.sec * (q + 1) <= geo.sec * n) by (nonlinear_arith)
        requires
            geo.sec * q < geo.sec * n,
            geo.sec > 0,
    ;
    assert(geo.sec * (q + 1) == geo.sec * q + geo.sec) by (nonlinear_arith);
}

proof fn lemma_power_of_two_bits(x: u32)
    requires
        x > 0,
    ensures
        (x & ((x - 1) as u32)) == 0 <==> power_of_two(x as int),
    decreases x,
{
    if x == 1 {
        assert(1u32 & 0u32 == 0) by (bit_vector);
    } else if x % 2 == 0 {
        let h = x / 2;
        let p = (x - 1) as u32;
        let q = (h - 1) as u32;
        lemma_power_of_two_bits(h);
        assert((x & p) == 0 <==> (h & q) == 0) by (bit_vector)
            requires
                x > 1,
                x % 2 == 0,
                h == x / 2,
                p == x - 1,
                q == h - 1,
        ;
    } else {
        let p = (x - 1) as u32;
        assert((x & p) != 0) by (bit_vector)
            requires
                x > 1,
                x % 2 == 1,
                p == x - 1,
        ;
    }
}

/// Validate the sector / database geometry.
pub fn validate_geometry(sec_size: u32, max_size: u32) -> (r: Result<()>)
    ensures
        r == (if geometry_ok(sec_size as int, max_size as int) {
            Ok(())
        } else {
            Err(FdbError::InitFailed)
        }),
{
    if sec_size == 0 || max_size == 0 {
        return Err(FdbError::InitFailed);
    }
    proof {
        lemma_power_of_two_bits(sec_size);
    }
    if sec_size & (sec_size - 1) != 0 {
        return Err(FdbError::InitFailed);
    }
    if max_size % sec_size != 0 {
        return Err(FdbError::InitFailed);
    }
    if max_size / sec_size < 2 {
        return Err(FdbError::InitFailed);
    }
    Ok(())
}

/// A default key/value pair used to seed a freshly formatted KVDB.
///
/// The value is stored verbatim with length `value.len()`.
#[derive(Debug, Clone, Copy)]
pub struct DefaultKv<'a> {
    /// KV name.
    pub key: &'a [u8],
    /// KV value bytes.
    pub value: &'a [u8],
}

impl<'a> DefaultKv<'a> {
    /// Create a default KV from a name and value.
    pub fn new(key: &'a [u8], value: &'a [u8]) -> (r: Self)
        ensures
            r.key@ == key@,
            r.value@ == value@,
    {
        DefaultKv { key, value }
    }
}

} // verus!
