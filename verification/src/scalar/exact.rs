//! Operations whose exact result is a scalar.

use super::arith::signed;
use super::consts::{ONE, TWO};
use super::convert::{
    lemma_large_whole, lemma_representable, lemma_split, lemma_unit, WHOLE_PATTERN,
};
use super::order::{lemma_nearest_exists, lemma_nearest_monotone, lemma_one};
use super::round::{
    lemma_magnitude_increases, lemma_magnitude_split, lemma_magnitude_step, lemma_nearest, nearest,
    spacing,
};
use super::{magnitude, scalar, unit, Scalar, BINADE, INF_PATTERN};
use vstd::arithmetic::div_mod::{lemma_fundamental_div_mod, lemma_fundamental_div_mod_converse};
use vstd::arithmetic::power2::{lemma2_to64, lemma_pow2_adds, lemma_pow2_pos, pow2};
use vstd::prelude::*;

verus! {

/// A rational equal to the magnitude of a pattern rounds to that pattern.
pub proof fn lemma_exact(p: nat, n: nat, d: nat)
    requires
        p < INF_PATTERN,
        d > 0,
        n == magnitude(p) * d,
    ensures
        nearest(n, d) == p,
{
    let m = magnitude(p);
    let hi = magnitude(p + 1);
    lemma_magnitude_increases(p, p + 1);
    assert(2 * n < (m + hi) * d) by (nonlinear_arith)
        requires
            n == m * d,
            m < hi,
            d > 0,
    ;
    if p > 0 {
        let lo = magnitude((p - 1) as nat);
        lemma_magnitude_increases((p - 1) as nat, p);
        assert(2 * n > (lo + m) * d) by (nonlinear_arith)
            requires
                n == m * d,
                lo < m,
                d > 0,
        ;
    }
    lemma_nearest(n, d, p);
}

/// The pattern of a power of two from one upwards.
pub proof fn lemma_power(p: nat, e: nat)
    requires
        e <= 100,
        p == (127 + e) * BINADE,
    ensures
        magnitude(p) == pow2(e) * unit(),
        p < INF_PATTERN,
{
    lemma2_to64();
    vstd::arithmetic::div_mod::lemma_fundamental_div_mod_converse(
        p as int,
        BINADE as int,
        127 + e as int,
        0,
    );
    lemma_pow2_adds(23, (126 + e) as nat);
    lemma_pow2_adds(e, 149);
    assert(BINADE as nat == pow2(23));
}

/// The pattern of a whole number with its binade.
pub proof fn lemma_whole(p: nat, q: nat, e: nat)
    requires
        127 <= e <= 150,
        e * BINADE <= p < (e + 1) * BINADE,
        p - e * BINADE + BINADE == q * pow2((150 - e) as nat),
    ensures
        magnitude(p) == q * unit(),
        p < INF_PATTERN,
{
    let o = p - e * BINADE;
    let w = pow2((e - 1) as nat);
    let v = pow2((150 - e) as nat);
    vstd::arithmetic::div_mod::lemma_fundamental_div_mod_converse(
        p as int,
        BINADE as int,
        e as int,
        o,
    );
    lemma_pow2_adds((150 - e) as nat, (e - 1) as nat);
    assert(q * v * w == q * (v * w)) by (nonlinear_arith);
}

/// Twice 64 over 2 is 64.
pub proof fn lemma_default_extent()
    ensures
        scalar(0x4280_0000).mul_spec(scalar(TWO)).div_spec(scalar(TWO)).ceil_spec().to_int_spec(
            i32::MIN as int,
            i32::MAX as int,
        ) == 64,
{
    reveal(Scalar::mul_spec);
    reveal(Scalar::div_spec);
    reveal(Scalar::ceil_spec);
    reveal(Scalar::to_int_spec);
    reveal(Scalar::from_int_spec);
    lemma2_to64();
    lemma_pow2_pos(149);
    let u = unit();
    lemma_power(0x4280_0000, 6);
    lemma_power(0x4000_0000, 1);
    lemma_power(0x4300_0000, 7);
    let a = scalar(0x4280_0000);
    let b = scalar(TWO);
    assert((64 * u) * (2 * u) == (128 * u) * u) by (nonlinear_arith);
    lemma_exact(0x4300_0000, (64 * u) * (2 * u), u);
    assert(a.mul_spec(b) == scalar(0x4300_0000));
    assert((128 * u) * u == (64 * u) * (2 * u)) by (nonlinear_arith);
    lemma_exact(0x4280_0000, (128 * u) * u, 2 * u);
    assert(scalar(0x4300_0000).div_spec(b) == a);
    let i = u as int;
    assert(-(64 * i) == (-64) * i) by (nonlinear_arith);
    vstd::arithmetic::div_mod::lemma_fundamental_div_mod_converse(-(64 * i), i, -64, 0);
    vstd::arithmetic::div_mod::lemma_fundamental_div_mod_converse(64 * i, i, 64, 0);
    lemma_exact(0x4280_0000, 64 * u, 1);
    assert(a.ceil_spec() == a);
}

/// A short significand times a power of two is a magnitude.
pub proof fn lemma_scaled(k: nat, e: nat) -> (p: nat)
    requires
        k < 2 * BINADE,
        e <= 253,
    ensures
        p < INF_PATTERN,
        magnitude(p) == k * pow2(e),
    decreases e,
{
    if k >= BINADE || e == 0 {
        lemma_magnitude_split(e, k);
        e * (BINADE as nat) + k
    } else {
        lemma_pow2_adds(1, (e - 1) as nat);
        lemma2_to64();
        let w = pow2((e - 1) as nat);
        assert((2 * k) * w == k * (2 * w)) by (nonlinear_arith);
        lemma_scaled(2 * k, (e - 1) as nat)
    }
}

/// The part of a number from zero up that floor takes away and the part that
/// it leaves add up to the number, without rounding.
pub proof fn lemma_floor_is_exact(s: Scalar)
    requires
        s.is_finite_spec(),
        !s.negative(),
    ensures
        s.floor_spec().is_finite_spec(),
        !s.floor_spec().negative(),
        s.floor_spec().num() == (s.num() / (unit() as int)) * unit(),
        s.sub_spec(s.floor_spec()).is_finite_spec(),
        s.sub_spec(s.floor_spec()).num() == s.num() % (unit() as int),
{
    reveal(Scalar::floor_spec);
    reveal(Scalar::from_int_spec);
    reveal(Scalar::add_spec);
    lemma_unit();
    assert(magnitude(0) == 0);
    let m = magnitude(s.pattern());
    let u = unit();
    let q = m / u;
    let r = m % u;
    lemma_fundamental_div_mod(m as int, u as int);
    if s.pattern() >= WHOLE_PATTERN {
        lemma_large_whole(s);
        assert(s.floor_spec() == s);
        assert(q * u == u * q) by (nonlinear_arith);
    } else {
        let p = s.pattern();
        let binade = p / (BINADE as nat);
        let e = if binade == 0 {
            0
        } else {
            (binade - 1) as nat
        };
        let sig = (p - e * BINADE) as nat;
        lemma_magnitude_split(e, sig);
        lemma_split(sig, e, m);
        let d = pow2((149 - e) as nat);
        lemma2_to64();
        lemma_pow2_adds(1, (148 - e) as nat);
        lemma_pow2_pos((148 - e) as nat);
        assert(q < 2 * BINADE) by (nonlinear_arith)
            requires
                q == sig / d,
                sig < 2 * BINADE,
                d >= 2,
        ;
        vstd::arithmetic::div_mod::lemma_mod_decreases(sig, d);
        let fp = lemma_scaled(q, 149);
        let rp = lemma_scaled(sig % d, e);
        let f = s.floor_spec();
        lemma_representable(fp);
        lemma_representable(rp);
        if q == 0 {
            assert(f == signed(false, 0));
            assert(0 * u == 0);
        } else {
            assert(f == signed(false, fp));
        }
        assert(f.num() == q * u);
        let g = f.neg_spec();
        assert(g.num() == -f.num());
        assert(q * u == u * q) by (nonlinear_arith);
        assert(s.num() + g.num() == r);
        if r != 0 {
            assert(s.sub_spec(f) == signed(false, rp));
        }
    }
}

/// Neighbouring scalars up to one lie at most two to the minus 24 apart.
proof fn lemma_spacing(p: nat)
    requires
        p < ONE,
    ensures
        spacing(p) * 0x100_0000 <= unit(),
{
    let binade = p / (BINADE as nat);
    assert(binade <= 126) by (nonlinear_arith)
        requires
            binade == p / 0x80_0000,
            p < 127 * 0x80_0000,
    ;
    let e = if binade == 0 {
        0
    } else {
        (binade - 1) as nat
    };
    lemma2_to64();
    lemma_pow2_adds(e, (125 - e) as nat);
    lemma_pow2_adds(125, 24);
    lemma_pow2_pos((125 - e) as nat);
    assert(pow2(e) <= pow2(125)) by (nonlinear_arith)
        requires
            pow2(125) == pow2(e) * pow2((125 - e) as nat),
            pow2((125 - e) as nat) >= 1,
    ;
}

/// A fraction of one is rounded by at most two to the minus 25.
proof fn lemma_fraction(e: nat)
    requires
        e < unit(),
    ensures
        nearest(e, 1) <= ONE,
        magnitude(nearest(e, 1)) <= unit(),
        (magnitude(nearest(e, 1)) - e) * 0x200_0000 <= unit(),
        (e - magnitude(nearest(e, 1))) * 0x200_0000 <= unit(),
{
    lemma_one();
    lemma_representable(ONE as nat);
    lemma_nearest_exists(e, 1);
    lemma_nearest_monotone(e, 1, unit(), 1);
    let p = nearest(e, 1);
    lemma_magnitude_increases(p, ONE as nat);
    if p < ONE {
        lemma_magnitude_step(p);
        lemma_spacing(p);
    }
    if p > 0 {
        lemma_magnitude_step((p - 1) as nat);
        lemma_spacing((p - 1) as nat);
    } else {
        assert(magnitude(0) == 0);
    }
}

/// What floor takes away from a number below zero, and what it leaves, which
/// may be rounded, but not past one.
proof fn lemma_floor_below_zero(s: Scalar)
    requires
        s.is_finite_spec(),
        s.negative(),
    ensures
        s.floor_spec().is_finite_spec(),
        s.floor_spec().num() == (s.num() / (unit() as int)) * unit(),
        s.sub_spec(s.floor_spec()).is_finite_spec(),
        0 <= s.sub_spec(s.floor_spec()).num() <= unit(),
        (s.sub_spec(s.floor_spec()).num() - s.num() % (unit() as int)) * 0x200_0000 <= unit(),
        (s.num() % (unit() as int) - s.sub_spec(s.floor_spec()).num()) * 0x200_0000 <= unit(),
{
    lemma_unit();
    let u = unit() as int;
    vstd::arithmetic::div_mod::lemma_mod_bound(s.num(), u);
    reveal(Scalar::floor_spec);
    reveal(Scalar::from_int_spec);
    reveal(Scalar::add_spec);
    assert(magnitude(0) == 0);
    lemma_fundamental_div_mod(s.num(), u);
    let q = s.num() / u;
    let f = s.floor_spec();
    if s.pattern() >= WHOLE_PATTERN {
        lemma_large_whole(s);
        assert(f == s);
        assert(q * u == u * q) by (nonlinear_arith);
    } else {
        let p = s.pattern();
        let m = magnitude(p);
        let binade = p / (BINADE as nat);
        let e = if binade == 0 {
            0
        } else {
            (binade - 1) as nat
        };
        let sig = (p - e * BINADE) as nat;
        lemma_magnitude_split(e, sig);
        lemma_split(sig, e, m);
        let d = pow2((149 - e) as nat);
        lemma2_to64();
        lemma_pow2_adds(1, (148 - e) as nat);
        lemma_pow2_pos((148 - e) as nat);
        let w = m / unit();
        assert(w < BINADE) by (nonlinear_arith)
            requires
                w == sig / d,
                sig < 2 * BINADE,
                d >= 2,
        ;
        lemma_fundamental_div_mod(m as int, u);
        assert(-(w as int) - 1 <= q <= 0) by (nonlinear_arith)
            requires
                s.num() == -(m as int),
                m == u * w + m % unit(),
                0 <= m % unit() < u,
                s.num() == u * q + s.num() % u,
                0 <= s.num() % u < u,
                u > 0,
        ;
        let fp = lemma_scaled((-q) as nat, 149);
        lemma_representable(fp);
        assert((-q) * u == -(q * u)) by (nonlinear_arith);
        if q == 0 {
            assert(f == signed(true, 0));
        } else {
            assert(f == signed(true, fp));
        }
        assert(f.num() == q * u);
    }
    let g = f.neg_spec();
    assert(g.num() == -f.num());
    assert(q * u == u * q) by (nonlinear_arith);
    let rest = (s.num() % u) as nat;
    assert(s.num() + g.num() == rest);
    lemma_fraction(rest);
    if rest != 0 {
        assert(s.sub_spec(f) == signed(false, nearest(rest, 1)));
    }
}

/// The part of a number that floor takes away, and the part that it leaves,
/// which a number below zero may have rounded, but not past one.
pub proof fn lemma_floor_splits(s: Scalar)
    requires
        s.is_finite_spec(),
    ensures
        s.floor_spec().is_finite_spec(),
        s.floor_spec().num() == (s.num() / (unit() as int)) * unit(),
        s.sub_spec(s.floor_spec()).is_finite_spec(),
        0 <= s.sub_spec(s.floor_spec()).num() <= unit(),
        (s.sub_spec(s.floor_spec()).num() - s.num() % (unit() as int)) * 0x200_0000 <= unit(),
        (s.num() % (unit() as int) - s.sub_spec(s.floor_spec()).num()) * 0x200_0000 <= unit(),
{
    lemma_unit();
    vstd::arithmetic::div_mod::lemma_mod_bound(s.num(), unit() as int);
    if s.negative() {
        lemma_floor_below_zero(s);
    } else {
        lemma_floor_is_exact(s);
    }
}

/// The integer part of a whole number is the number.
pub proof fn lemma_whole_to_int(f: Scalar, q: int, low: int, high: int)
    requires
        f.is_finite_spec(),
        f.num() == q * unit(),
        low <= q <= high,
    ensures
        f.to_int_spec(low, high) == q,
{
    reveal(Scalar::to_int_spec);
    lemma_unit();
    let u = unit() as int;
    if f.negative() {
        assert(-(q * u) == (-q) * u) by (nonlinear_arith);
        lemma_fundamental_div_mod_converse(-f.num(), u, -q, 0);
    } else {
        lemma_fundamental_div_mod_converse(f.num(), u, q, 0);
    }
}

/// A small integer converts without rounding.
pub proof fn lemma_from_int(q: nat)
    requires
        0 < q < 2 * BINADE,
    ensures
        Scalar::from_int_spec(q as int).num() == q * unit(),
        Scalar::from_int_spec(q as int).is_finite_spec(),
        !Scalar::from_int_spec(q as int).negative(),
{
    reveal(Scalar::from_int_spec);
    let p = lemma_scaled(q, 149);
    lemma_representable(p);
}

} // verus!
