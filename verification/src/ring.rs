//! The ring of sectors: a walk that starts at some sector and comes past every sector
//! once.
use vstd::prelude::*;

use crate::db;
use crate::db::Geo;

verus! {

/// Whether the sectors of a geometry can be walked over: it is valid, and a sector can hold
/// a header.
pub open spec fn walkable(geo: Geo) -> bool {
    db::geo_fits(geo) && geo.sec >= 16
}

/// The sector that a walk from the sector `o` on comes to after `t` bytes.
pub open spec fn at(geo: Geo, o: int, t: int) -> int {
    if o + t < geo.max {
        o + t
    } else {
        o + t - geo.max
    }
}

/// After how many bytes a walk from the sector `o` on comes to the sector `a`.
pub open spec fn dist(geo: Geo, o: int, a: int) -> int {
    if a >= o {
        a - o
    } else {
        a - o + geo.max
    }
}

/// Whether a walk from the sector `o` on is at the start of a sector after `t` bytes.
pub open spec fn on_walk(geo: Geo, o: int, t: int) -> bool {
    &&& walkable(geo)
    &&& db::is_sector(geo, o)
    &&& 0 <= t < geo.max
    &&& t % geo.sec == 0
}

/// The steps of a walk.
pub proof fn lemma_walk(geo: Geo, o: int, t: int)
    requires
        on_walk(geo, o, t),
    ensures
        db::is_sector(geo, at(geo, o, t)),
        dist(geo, o, at(geo, o, t)) == t,
        t + geo.sec <= geo.max,
        t + geo.sec < geo.max ==> on_walk(geo, o, t + geo.sec) && at(geo, o, t + geo.sec) == (
        if at(geo, o, t) + geo.sec < geo.max {
            at(geo, o, t) + geo.sec
        } else {
            0
        }),
        on_walk(geo, o, 0),
        at(geo, o, 0) == o,
{
    let sec = geo.sec;
    let qo = o / sec;
    let qt = t / sec;
    let qm = geo.max / sec;
    db::lemma_geo(geo);
    vstd::arithmetic::div_mod::lemma_fundamental_div_mod(o, sec);
    vstd::arithmetic::div_mod::lemma_fundamental_div_mod(t, sec);
    vstd::arithmetic::div_mod::lemma_fundamental_div_mod(geo.max, sec);
    vstd::arithmetic::div_mod::lemma_small_mod(0, sec as nat);
    assert(sec * qt + sec <= sec * qm) by (nonlinear_arith)
        requires
            sec * qt < sec * qm,
            sec > 0,
    ;
    vstd::arithmetic::div_mod::lemma_mod_add_multiples_vanish(t, sec);
    let a = at(geo, o, t);
    assert(a % sec == 0) by {
        if o + t < geo.max {
            assert(o + t == sec * (qo + qt)) by (nonlinear_arith)
                requires
                    o == sec * qo,
                    t == sec * qt,
            ;
            vstd::arithmetic::div_mod::lemma_mod_multiples_basic(qo + qt, sec);
            assert(sec * (qo + qt) == (qo + qt) * sec) by (nonlinear_arith);
        } else {
            assert(o + t - geo.max == sec * (qo + qt - qm)) by (nonlinear_arith)
                requires
                    o == sec * qo,
                    t == sec * qt,
                    geo.max == sec * qm,
            ;
            vstd::arithmetic::div_mod::lemma_mod_multiples_basic(qo + qt - qm, sec);
            assert(sec * (qo + qt - qm) == (qo + qt - qm) * sec) by (nonlinear_arith);
        }
    }
    db::lemma_aligned(geo, a);
    if a + sec < geo.max {
    } else {
        assert(a + sec == geo.max);
    }
}

/// The start of a walk.
pub proof fn lemma_first(geo: Geo, o: int)
    requires
        walkable(geo),
        o == 0 || db::is_sector(geo, o),
    ensures
        on_walk(geo, o, 0),
        at(geo, o, 0) == o,
        db::is_sector(geo, 0),
        geo.sec <= geo.max,
{
    db::lemma_geo(geo);
    vstd::arithmetic::div_mod::lemma_small_mod(0, geo.sec as nat);
}

/// Every sector is come to.
pub proof fn lemma_dist(geo: Geo, o: int, a: int)
    requires
        walkable(geo),
        db::is_sector(geo, o),
        db::is_sector(geo, a),
    ensures
        on_walk(geo, o, dist(geo, o, a)),
        at(geo, o, dist(geo, o, a)) == a,
{
    let sec = geo.sec;
    let qo = o / sec;
    let qa = a / sec;
    let qm = geo.max / sec;
    vstd::arithmetic::div_mod::lemma_fundamental_div_mod(o, sec);
    vstd::arithmetic::div_mod::lemma_fundamental_div_mod(a, sec);
    vstd::arithmetic::div_mod::lemma_fundamental_div_mod(geo.max, sec);
    if a >= o {
        assert(a - o == (qa - qo) * sec) by (nonlinear_arith)
            requires
                o == sec * qo,
                a == sec * qa,
        ;
        vstd::arithmetic::div_mod::lemma_mod_multiples_basic(qa - qo, sec);
    } else {
        assert(a - o + geo.max == (qa - qo + qm) * sec) by (nonlinear_arith)
            requires
                o == sec * qo,
                a == sec * qa,
                geo.max == sec * qm,
        ;
        vstd::arithmetic::div_mod::lemma_mod_multiples_basic(qa - qo + qm, sec);
    }
}

/// A sector that is still to come is the next one or comes behind it.
pub proof fn lemma_ahead(geo: Geo, o: int, t: int, a: int)
    requires
        on_walk(geo, o, t),
        db::is_sector(geo, a),
        dist(geo, o, a) >= t,
    ensures
        a == at(geo, o, t) || dist(geo, o, a) >= t + geo.sec,
{
    lemma_dist(geo, o, a);
    lemma_walk(geo, o, t);
    let d = dist(geo, o, a);
    let sec = geo.sec;
    let qd = d / sec;
    let qt = t / sec;
    vstd::arithmetic::div_mod::lemma_fundamental_div_mod(d, sec);
    vstd::arithmetic::div_mod::lemma_fundamental_div_mod(t, sec);
    if d > t {
        assert(sec * qd >= sec * qt + sec) by (nonlinear_arith)
            requires
                sec * qd > sec * qt,
                sec > 0,
        ;
    }
}

} // verus!
