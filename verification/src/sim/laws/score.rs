//! What goals are worth: needs first, and the nearer the better.

use super::distance::{
    exact_dist2, flipped, law_distance_is_euclidean, law_distance_is_symmetric, lemma_sum_close,
    lies_within,
};
use crate::scalar::arith::{abs_int, is_nearest_root};
use crate::scalar::bounds::{
    lemma_product_error, lemma_quotient, lemma_quotient_error, lemma_spacing_small,
    lemma_unit_large, lemma_within_product, lemma_within_quotient, lemma_within_sum,
    lemma_within_weakens, PRECISION, TINY,
};
use crate::scalar::consts::ONE;
use crate::scalar::convert::lemma_unit;
use crate::scalar::monotone::{
    lemma_product_monotone, lemma_quotient_antitone, lemma_root, lemma_root_monotone,
    lemma_sum_monotone,
};
use crate::scalar::order::lemma_one;
use crate::scalar::round::{lemma_magnitude_step, spacing};
use crate::scalar::{magnitude, scalar, unit, Scalar};
use crate::sim::agent::{AgentView, Position};
use crate::sim::goal::GoalView;
use crate::sim::systems::autonomy::{gain, score_of};
use crate::sim::systems::walk::dist2;
use vstd::arithmetic::power2::{lemma2_to64, lemma_pow2_adds, lemma_pow2_pos, pow2};
use vstd::prelude::*;

verus! {

/// Where a goal stands.
pub open spec fn place(g: GoalView) -> Position {
    Position { x: g.x, z: g.z }
}

/// Agent and goal exchange their axes and the score stays: it counts the way
/// along x and along z alike.
pub proof fn law_score_counts_both_axes(a: AgentView, g: GoalView)
    ensures
        score_of(
            AgentView { pos: flipped(a.pos), ..a },
            GoalView { x: g.z, z: g.x, ..g },
        ) == score_of(a, g),
{
    law_distance_is_symmetric(place(g), a.pos);
}

/// Two goals are told apart by their place alone.
pub open spec fn offer_the_same(g: GoalView, h: GoalView) -> bool {
    g.ads == h.ads && g.attenuation == h.attenuation
}

/// An agent finds something to gain from the goal's ads, not more than about a
/// million.
pub open spec fn has_gain(a: AgentView, g: GoalView) -> bool {
    let sum = gain(a.needs, a.personality, g.ads, g.ads.len() as int);
    sum.within(20) && sum.num() >= 0
}

/// The divisor of a score: how far away the goal is counts.
proof fn lemma_divisor(a: AgentView, g: GoalView)
    requires
        lies_within(a.pos, 11),
        lies_within(place(g), 11),
        g.attenuation.within(6),
        g.attenuation.num() >= 0,
    ensures
        ({
            let d = dist2(g.x, g.z, a.pos);
            let m = g.attenuation.mul_spec(d.sqrt_spec());
            let n = scalar(ONE).add_spec(m);
            &&& d.within(35) && d.num() >= 0
            &&& d.sqrt_spec().within(18) && d.sqrt_spec().num() >= 0
            &&& m.within(24) && m.num() >= 0
            &&& n.within(25) && n.num() >= unit()
        }),
{
    lemma_within_weakens(a.pos.x, 11, 16);
    lemma_within_weakens(a.pos.z, 11, 16);
    lemma_within_weakens(g.x, 11, 16);
    lemma_within_weakens(g.z, 11, 16);
    law_distance_is_euclidean(place(g), a.pos);
    let d = dist2(g.x, g.z, a.pos);
    lemma_within_weakens(d, 35, 60);
    lemma_root(d);
    lemma_root_bound(d);
    let r = d.sqrt_spec();
    let m = g.attenuation.mul_spec(r);
    lemma_within_product(g.attenuation, r, 6, 18);
    lemma_product_monotone(g.attenuation, g.attenuation, r);
    lemma_one();
    lemma2_to64();
    crate::scalar::bounds::lemma_within_pattern(scalar(ONE), 24);
    lemma_within_sum(scalar(ONE), m, 24);
    crate::scalar::bounds::lemma_sum_with_zero(scalar(ONE), scalar(0));
    lemma_sum_monotone(scalar(0), m, scalar(ONE));
}

/// A root is at most two to the 18 where the number is at most two to the 35.
pub proof fn lemma_root_bound(d: Scalar)
    requires
        d.within(35),
        d.num() >= 0,
        d.sqrt_spec().is_finite_spec(),
        d.sqrt_spec().num() >= 0,
        is_nearest_root((d.num() * unit()) as nat, d.sqrt_spec().pattern()),
        d.sqrt_spec().num() == magnitude(d.sqrt_spec().pattern()),
    ensures
        d.sqrt_spec().within(18),
{
    lemma_unit();
    let p = d.sqrt_spec().pattern();
    let m = magnitude(p) as int;
    let u = unit() as int;
    let top = pow2(18) * u;
    lemma_pow2_adds(18, 18);
    lemma_pow2_adds(1, 35);
    lemma2_to64();
    lemma_pow2_pos(18);
    if m > top {
        let q = (p - 1) as nat;
        assert(magnitude(0) == 0);
        let s = spacing(q) as int;
        lemma_magnitude_step(q);
        lemma_spacing_small(q);
        let c = magnitude(q) + magnitude(p);
        lemma_unit_large();
        assert(top >= u) by (nonlinear_arith)
            requires
                top == pow2(18) * u,
                pow2(18) >= 1,
                u > 0,
        ;
        assert(2 * c >= 3 * m);
        let n = d.num() * u;
        assert(4 * n >= c * c);
        assert(4 * (c * c) >= 9 * (m * m)) by (nonlinear_arith)
            requires
                2 * c >= 3 * m,
                m >= 0,
        ;
        assert(m * m >= top * top) by (nonlinear_arith)
            requires
                m >= top >= 0,
        ;
        assert(top * top == 2 * (pow2(35) * u * u)) by (nonlinear_arith)
            requires
                top == pow2(18) * u,
                pow2(36) == pow2(18) * pow2(18),
                pow2(36) == 2 * pow2(35),
        ;
        assert(n <= pow2(35) * u * u) by (nonlinear_arith)
            requires
                n == d.num() * u,
                d.num() <= pow2(35) * u,
                u > 0,
        ;
        assert(pow2(35) * u * u > 0) by (nonlinear_arith)
            requires
                pow2(35) >= 1,
                u > 0,
        ;
    }
}

/// The first goal is nearer than the second, by more than rounding can blur.
pub open spec fn is_clearly_nearer(p: Position, near: Position, far: Position) -> bool {
    exact_dist2(near, p) * 0x1_0001 + 0x40_0000 * unit() <= exact_dist2(far, p) * 0x1_0000
}

proof fn lemma_nearer(p: Position, near: Position, far: Position)
    requires
        lies_within(p, 11),
        lies_within(near, 11),
        lies_within(far, 11),
        is_clearly_nearer(p, near, far),
    ensures
        dist2(near.x, near.z, p).num() <= dist2(far.x, far.z, p).num(),
{
    lemma_within_weakens(p.x, 11, 16);
    lemma_within_weakens(p.z, 11, 16);
    lemma_within_weakens(near.x, 11, 16);
    lemma_within_weakens(near.z, 11, 16);
    lemma_within_weakens(far.x, 11, 16);
    lemma_within_weakens(far.z, 11, 16);
    law_distance_is_euclidean(near, p);
    law_distance_is_euclidean(far, p);
    lemma_unit();
    let u = unit() as int;
    let e = dist2(near.x, near.z, p).num();
    let f = dist2(far.x, far.z, p).num();
    let d = exact_dist2(near, p);
    let g = exact_dist2(far, p);
    assert(d >= 0 && g >= 0) by {
        lemma_exact_nonnegative(near, p);
        lemma_exact_nonnegative(far, p);
    }
    assert(e * u <= f * u);
    assert(e <= f) by (nonlinear_arith)
        requires
            e * u <= f * u,
            u > 0,
    ;
}

pub proof fn lemma_exact_nonnegative(a: Position, b: Position)
    ensures
        exact_dist2(a, b) >= 0,
{
    let x = a.x.num() - b.x.num();
    let z = a.z.num() - b.z.num();
    assert(x * x >= 0 && z * z >= 0) by (nonlinear_arith);
}

/// Of two goals that offer the same, the farther one scores no more, whichever
/// way it lies.
pub proof fn law_farther_goals_score_no_more(a: AgentView, near: GoalView, far: GoalView)
    requires
        offer_the_same(near, far),
        near.attenuation.within(6),
        near.attenuation.num() >= 0,
        has_gain(a, near),
        lies_within(a.pos, 11),
        lies_within(place(near), 11),
        lies_within(place(far), 11),
        is_clearly_nearer(a.pos, place(near), place(far)),
    ensures
        !score_of(a, near).is_nan_spec(),
        !score_of(a, far).is_nan_spec(),
        score_of(a, far).num() <= score_of(a, near).num(),
{
    lemma_divisor(a, near);
    lemma_divisor(a, far);
    lemma_nearer(a.pos, place(near), place(far));
    let d = dist2(near.x, near.z, a.pos);
    let e = dist2(far.x, far.z, a.pos);
    lemma_within_weakens(d, 35, 60);
    lemma_within_weakens(e, 35, 60);
    lemma_root_monotone(d, e);
    lemma_product_monotone(d.sqrt_spec(), e.sqrt_spec(), near.attenuation);
    lemma_one();
    lemma_sum_monotone(
        near.attenuation.mul_spec(d.sqrt_spec()),
        near.attenuation.mul_spec(e.sqrt_spec()),
        scalar(ONE),
    );
    lemma_quotient_antitone(
        gain(a.needs, a.personality, near.ads, near.ads.len() as int),
        scalar(ONE).add_spec(near.attenuation.mul_spec(d.sqrt_spec())),
        scalar(ONE).add_spec(near.attenuation.mul_spec(e.sqrt_spec())),
    );
}

/// The root of a number at least three times as large is at least half as
/// large again.
proof fn lemma_root_grows(d: Scalar, e: Scalar)
    requires
        d.within(35),
        e.within(35),
        d.num() >= 0,
        3 * d.num() <= e.num(),
        4 * e.num() >= unit(),
    ensures
        3 * d.sqrt_spec().num() <= 2 * e.sqrt_spec().num(),
        4 * e.sqrt_spec().num() >= unit(),
{
    lemma_within_weakens(d, 35, 60);
    lemma_within_weakens(e, 35, 60);
    lemma_root(d);
    lemma_root(e);
    lemma_unit();
    let u = unit() as int;
    let p = d.sqrt_spec().pattern();
    let q = e.sqrt_spec().pattern();
    let v = magnitude(p) as int;
    let w = magnitude(q) as int;
    let n = d.num() * u;
    let m = e.num() * u;
    assert(3 * n <= m) by (nonlinear_arith)
        requires
            3 * d.num() <= e.num(),
            n == d.num() * u,
            m == e.num() * u,
            u > 0,
    ;
    assert(4 * m >= u * u) by (nonlinear_arith)
        requires
            4 * e.num() >= u,
            m == e.num() * u,
            u > 0,
    ;
    lemma_unit_large();
    lemma_magnitude_step(q);
    lemma_spacing_small(q);
    let c = w + magnitude(q + 1);
    assert(4 * m <= c * c);
    // the root is not small
    if 4 * w < u {
        assert(4 * c <= 3 * u);
        assert(16 * (c * c) <= 9 * (u * u)) by (nonlinear_arith)
            requires
                0 <= 4 * c <= 3 * u,
        ;
        assert(u * u > 0) by (nonlinear_arith)
            requires
                u > 0,
        ;
    }
    assert(w >= TINY * 8);
    assert(100 * c <= 201 * w);
    assert(10000 * (c * c) <= 40401 * (w * w)) by (nonlinear_arith)
        requires
            0 <= 100 * c <= 201 * w,
    ;
    if 3 * v > 2 * w {
        assert(magnitude(0) == 0);
        let r = (p - 1) as nat;
        lemma_magnitude_step(r);
        lemma_spacing_small(r);
        let b = magnitude(r) + v;
        assert(100 * b >= 199 * v);
        assert(4 * n >= b * b);
        assert(10000 * (b * b) >= 39601 * (v * v)) by (nonlinear_arith)
            requires
                100 * b >= 199 * v,
                v >= 0,
        ;
        assert(9 * (v * v) >= 4 * (w * w)) by (nonlinear_arith)
            requires
                3 * v >= 2 * w,
                w >= 0,
        ;
        assert(w * w > 0) by (nonlinear_arith)
            requires
                w >= 1,
        ;
    }
}

/// The divisor of the farther goal is clearly larger.
proof fn lemma_divisors_differ(b: Scalar, r: Scalar, t: Scalar)
    requires
        b.within(6),
        64 * b.num() >= unit(),
        r.within(18),
        t.within(18),
        r.num() >= 0,
        3 * r.num() <= 2 * t.num(),
        4 * t.num() >= unit(),
    ensures
        ({
            let x = scalar(ONE).add_spec(b.mul_spec(r));
            let y = scalar(ONE).add_spec(b.mul_spec(t));
            &&& x.within(25) && y.within(25)
            &&& x.num() >= unit()
            &&& 2048 * y.num() >= 2049 * x.num()
        }),
{
    lemma_unit();
    lemma_one();
    lemma2_to64();
    let u = unit() as int;
    let one = scalar(ONE);
    let m = b.mul_spec(r);
    let n = b.mul_spec(t);
    lemma_within_product(b, r, 6, 18);
    lemma_within_product(b, t, 6, 18);
    lemma_product_error(b, r);
    lemma_product_error(b, t);
    lemma_product_monotone(r, t, b);
    lemma_product_monotone(b, b, r);
    crate::scalar::bounds::lemma_within_pattern(one, 24);
    lemma_within_sum(one, m, 24);
    lemma_within_sum(one, n, 24);
    lemma_sum_close(one, m);
    lemma_sum_close(one, n);
    crate::scalar::bounds::lemma_sum_with_zero(one, scalar(0));
    lemma_sum_monotone(scalar(0), m, one);
    let br = b.num() * r.num();
    let bt = b.num() * t.num();
    assert(0 <= 3 * br <= 2 * bt) by (nonlinear_arith)
        requires
            br == b.num() * r.num(),
            bt == b.num() * t.num(),
            b.num() >= 0,
            r.num() >= 0,
            3 * r.num() <= 2 * t.num(),
    ;
    let uu = u * u;
    assert(256 * bt >= uu) by (nonlinear_arith)
        requires
            bt == b.num() * t.num(),
            64 * b.num() >= u,
            4 * t.num() >= u,
            uu == u * u,
            u > 0,
    ;
    lemma_unit_large();
    assert(uu >= TINY * u * 0x1_0000) by (nonlinear_arith)
        requires
            uu == u * u,
            u >= TINY * 0x1_0000,
            u > 0,
    ;
    let tu = TINY * u;
    let mu = m.num() * u;
    let nu = n.num() * u;
    let x = one.add_spec(m).num();
    let y = one.add_spec(n).num();
    let xu = x * u;
    let yu = y * u;
    let e = abs_int(x - (u + m.num())) as int;
    let f = abs_int(y - (u + n.num())) as int;
    assert(abs_int(xu - (uu + mu)) == e * u && abs_int(yu - (uu + nu)) == f * u)
        by (nonlinear_arith)
        requires
            e == abs_int(x - (u + m.num())),
            f == abs_int(y - (u + n.num())),
            xu == x * u,
            yu == y * u,
            mu == m.num() * u,
            nu == n.num() * u,
            uu == u * u,
            u > 0,
    ;
    assert(e * u * PRECISION <= 3 * (uu + mu) && f * u * PRECISION <= 3 * (uu + nu))
        by (nonlinear_arith)
        requires
            e * PRECISION <= 3 * (u + m.num()),
            f * PRECISION <= 3 * (u + n.num()),
            mu == m.num() * u,
            nu == n.num() * u,
            uu == u * u,
            u > 0,
    ;
    assert(2048 * yu >= 2049 * xu);
    assert(2048 * y >= 2049 * x) by (nonlinear_arith)
        requires
            2048 * (y * u) >= 2049 * (x * u),
            u > 0,
    ;
}

/// A clearly larger divisor gives a smaller quotient.
proof fn lemma_quotients_differ(g: Scalar, x: Scalar, y: Scalar)
    requires
        g.within(20),
        0x10_0000 * g.num() >= unit(),
        x.within(25),
        y.within(25),
        x.num() >= unit(),
        2048 * y.num() >= 2049 * x.num(),
    ensures
        g.div_spec(x).is_finite_spec(),
        g.div_spec(y).is_finite_spec(),
        g.div_spec(y).num() < g.div_spec(x).num(),
{
    lemma_unit();
    lemma2_to64();
    let u = unit() as int;
    lemma_pow2_pos(20);
    assert(abs_int(g.num()) <= pow2(20) * abs_int(x.num())) by (nonlinear_arith)
        requires
            abs_int(g.num()) <= pow2(20) * unit(),
            x.num() >= unit(),
    ;
    assert(abs_int(g.num()) <= pow2(20) * abs_int(y.num())) by (nonlinear_arith)
        requires
            abs_int(g.num()) <= pow2(20) * unit(),
            y.num() >= unit(),
    ;
    lemma_within_quotient(g, x, 20);
    lemma_within_quotient(g, y, 20);
    lemma_quotient_error(g, x);
    lemma_quotient_error(g, y);
    let p = g.div_spec(x).num();
    let q = g.div_spec(y).num();
    let xn = x.num();
    let yn = y.num();
    let gu = g.num() * u;
    if q >= p {
        // p * xn is close to gu, so is q * yn
        lemma_quotient(g, x);
        assert(p >= 0);
        assert(p * yn <= q * yn) by (nonlinear_arith)
            requires
                p <= q,
                yn >= 0,
        ;
        assert(2048 * (p * yn) >= 2049 * (p * xn)) by (nonlinear_arith)
            requires
                2048 * yn >= 2049 * xn,
                p >= 0,
        ;
        let small = TINY * yn;
        assert(gu >= small * 0x10_0000) by {
            lemma_unit_large();
            assert(yn <= 0x200_0000 * u);
            assert(gu * 0x10_0000 >= u * u) by (nonlinear_arith)
                requires
                    gu == g.num() * u,
                    0x10_0000 * g.num() >= u,
                    u > 0,
            ;
            assert(u * u >= (0x100_0000_0000 * 0x1_0000_0000_0000) * u) by (nonlinear_arith)
                requires
                    u >= 0x100_0000_0000 * 0x1_0000_0000_0000,
                    u > 0,
            ;
            assert(small == 0x80_0000 * yn);
            assert(small <= 0x80_0000 * (0x200_0000 * u));
            assert(0x80_0000 * (0x200_0000 * u) * 0x100_0000_0000 == (0x100_0000_0000
                * 0x1_0000_0000_0000) * u) by (nonlinear_arith);
        }
        assert(gu > 0) by (nonlinear_arith)
            requires
                gu == g.num() * u,
                0x10_0000 * g.num() >= u,
                u > 0,
        ;
        assert(xn <= yn);
        assert(false);
    }
}

/// Of two goals that offer the same, the one at least twice as far, and at
/// least one unit away, scores less.
pub proof fn law_distant_goals_score_less(a: AgentView, near: GoalView, far: GoalView)
    requires
        offer_the_same(near, far),
        near.attenuation.within(6),
        64 * near.attenuation.num() >= unit(),
        has_gain(a, near),
        0x10_0000 * gain(a.needs, a.personality, near.ads, near.ads.len() as int).num() >= unit(),
        lies_within(a.pos, 11),
        lies_within(place(near), 11),
        lies_within(place(far), 11),
        exact_dist2(place(far), a.pos) >= 4 * exact_dist2(place(near), a.pos),
        exact_dist2(place(far), a.pos) >= unit() * unit(),
    ensures
        score_of(a, near).is_finite_spec(),
        score_of(a, far).is_finite_spec(),
        score_of(a, far).num() < score_of(a, near).num(),
{
    lemma_divisor(a, near);
    lemma_divisor(a, far);
    let d = dist2(near.x, near.z, a.pos);
    let e = dist2(far.x, far.z, a.pos);
    lemma_within_weakens(a.pos.x, 11, 16);
    lemma_within_weakens(a.pos.z, 11, 16);
    lemma_within_weakens(near.x, 11, 16);
    lemma_within_weakens(near.z, 11, 16);
    lemma_within_weakens(far.x, 11, 16);
    lemma_within_weakens(far.z, 11, 16);
    law_distance_is_euclidean(place(near), a.pos);
    law_distance_is_euclidean(place(far), a.pos);
    lemma_exact_nonnegative(place(near), a.pos);
    lemma_unit();
    let u = unit() as int;
    let uu = u * u;
    let du = d.num() * u;
    let eu = e.num() * u;
    assert(uu >= 0x100_0000 * u) by {
        lemma_unit_large();
        assert(uu >= 0x100_0000 * u) by (nonlinear_arith)
            requires
                uu == u * u,
                u >= 0x100_0000,
        ;
    }
    assert(3 * du <= eu && 4 * eu >= uu);
    assert(3 * d.num() <= e.num() && 4 * e.num() >= u) by (nonlinear_arith)
        requires
            3 * (d.num() * u) <= e.num() * u,
            4 * (e.num() * u) >= u * u,
            u > 0,
    ;
    lemma_root_grows(d, e);
    lemma_divisors_differ(near.attenuation, d.sqrt_spec(), e.sqrt_spec());
    lemma_quotients_differ(
        gain(a.needs, a.personality, near.ads, near.ads.len() as int),
        scalar(ONE).add_spec(near.attenuation.mul_spec(d.sqrt_spec())),
        scalar(ONE).add_spec(near.attenuation.mul_spec(e.sqrt_spec())),
    );
}

} // verus!
