//! Distances to segments: roads reach as far as they should.

use super::distance::{
    exact_dist2, law_distance_is_euclidean, lemma_difference_close, lemma_sum_close, lies_within,
};
use super::score::lemma_exact_nonnegative;
use crate::scalar::arith::abs_int;
use crate::scalar::bounds::{
    lemma_product, lemma_product_error, lemma_quotient_error, lemma_unit_large,
    lemma_within_product, lemma_within_quotient, lemma_within_sum, lemma_within_weakens, PRECISION,
    TINY,
};
use crate::scalar::consts::{ONE, ZERO};
use crate::scalar::convert::lemma_unit;
use crate::scalar::order::lemma_one;
use crate::scalar::{scalar, unit, Scalar};
use crate::sim::agent::Position;
use crate::sim::city::{seg_dist2, seg_param};
use crate::sim::systems::walk::dist2;
use vstd::arithmetic::power2::{lemma2_to64, pow2};
use vstd::prelude::*;

verus! {

/// The product of two rounded differences.
proof fn lemma_cross_close(a: Scalar, b: Scalar, c: Scalar, d: Scalar)
    requires
        a.within(11),
        b.within(11),
        c.within(11),
        d.within(11),
    ensures
        ({
            let s = a.sub_spec(b).mul_spec(c.sub_spec(d));
            let e = (a.num() - b.num()) * (c.num() - d.num());
            &&& s.within(24)
            &&& abs_int(s.num() * unit() - e) * PRECISION <= 11 * abs_int(e) + TINY * unit()
        }),
{
    let p = a.sub_spec(b);
    let q = c.sub_spec(d);
    lemma_within_sum(a, b, 11);
    lemma_within_sum(c, d, 11);
    lemma_difference_close(a, b);
    lemma_difference_close(c, d);
    lemma_within_product(p, q, 12, 12);
    lemma_product_error(p, q);
    lemma_unit();
    let x = a.num() - b.num();
    let y = c.num() - d.num();
    let v = abs_int(x) as int;
    let w = abs_int(y) as int;
    let e = abs_int(p.num() - x) as int;
    let f = abs_int(q.num() - y) as int;
    let pq = p.num() * q.num();
    let xy = x * y;
    let g = abs_int(pq - xy) as int;
    let vw = v * w;
    assert(abs_int(xy) == vw) by (nonlinear_arith)
        requires
            xy == x * y,
            vw == v * w,
            v == abs_int(x),
            w == abs_int(y),
    ;
    let dp = p.num() - x;
    let dq = q.num() - y;
    assert(pq - xy == dp * y + x * dq + dp * dq) by (nonlinear_arith)
        requires
            pq == p.num() * q.num(),
            xy == x * y,
            dp == p.num() - x,
            dq == q.num() - y,
    ;
    assert(abs_int(dp * y) == e * w) by (nonlinear_arith)
        requires
            e == abs_int(dp),
            w == abs_int(y),
    ;
    assert(abs_int(x * dq) == v * f) by (nonlinear_arith)
        requires
            f == abs_int(dq),
            v == abs_int(x),
    ;
    assert(abs_int(dp * dq) == e * f) by (nonlinear_arith)
        requires
            e == abs_int(dp),
            f == abs_int(dq),
    ;
    assert(g <= e * w + v * f + e * f);
    assert(e * w * PRECISION <= 3 * vw && v * f * PRECISION <= 3 * vw) by (nonlinear_arith)
        requires
            e * PRECISION <= 3 * v,
            f * PRECISION <= 3 * w,
            v >= 0,
            w >= 0,
            vw == v * w,
    ;
    assert(f <= w);
    assert(e * f <= e * w) by (nonlinear_arith)
        requires
            f <= w,
            e >= 0,
    ;
    assert(g * PRECISION <= 9 * vw);
}

/// What the points of a walk along a segment look like from a point: the way
/// from there to the point at part `k` of the segment, along one axis, times
/// one.
pub open spec fn way_off(p: Scalar, a: Scalar, b: Scalar, k: int) -> int {
    (p.num() - a.num()) * unit() - (b.num() - a.num()) * k
}

/// Part `k` of a segment is the foot of a point on it, up to rounding: beyond
/// it the segment leads away from the point, and before it towards the point.
pub open spec fn is_foot(p: Position, a: Position, b: Position, k: int) -> bool {
    let x = (p.x.num() - a.x.num()) * (b.x.num() - a.x.num());
    let z = (p.z.num() - a.z.num()) * (b.z.num() - a.z.num());
    let len2 = exact_dist2(b, a);
    let slack = unit() * (len2 + abs_int(x) + abs_int(z));
    &&& 0 <= k <= unit()
    &&& k < unit() ==> (k * len2 - (x + z) * unit()) * 0x1_0000 >= -slack
    &&& k > 0 ==> (k * len2 - (x + z) * unit()) * 0x1_0000 <= slack
}

/// The square of a number is the square of another, up to a sixteenth and an
/// offset.
proof fn lemma_near_square(d: int, r: int, off: int)
    requires
        abs_int(d - r) <= off,
        off >= 0,
    ensures
        16 * (d * d) <= 17 * (r * r) + 272 * (off * off),
        16 * (d * d) >= 15 * (r * r) - 272 * (off * off),
{
    let e = d - r;
    assert(16 * (d * d) <= 17 * (r * r) + 272 * (e * e)) by (nonlinear_arith)
        requires
            d == r + e,
    ;
    assert(16 * (d * d) >= 15 * (r * r) - 272 * (e * e)) by (nonlinear_arith)
        requires
            d == r + e,
    ;
    assert(e * e <= off * off) by (nonlinear_arith)
        requires
            -off <= e <= off,
    ;
}

/// One axis of the way from a point to a place on a segment.
proof fn lemma_axis(p: Scalar, a: Scalar, b: Scalar, t: Scalar)
    requires
        p.within(11),
        a.within(11),
        b.within(11),
        t.in_unit(),
        t.is_finite_spec(),
    ensures
        ({
            let d = p.sub_spec(a.add_spec(b.sub_spec(a).mul_spec(t)));
            &&& d.within(15)
            &&& abs_int(d.num() * unit() - way_off(p, a, b, t.num())) * 64 <= unit() * unit()
        }),
{
    lemma_unit();
    lemma_unit_large();
    lemma2_to64();
    let u = unit() as int;
    let k = t.num();
    let ab = b.sub_spec(a);
    lemma_within_sum(b, a, 11);
    lemma_difference_close(b, a);
    let w = ab.mul_spec(t);
    lemma_within_product(ab, t, 12, 0);
    lemma_product_error(ab, t);
    let s = a.add_spec(w);
    lemma_within_weakens(a, 11, 12);
    lemma_within_sum(a, w, 12);
    lemma_sum_close(a, w);
    let d = p.sub_spec(s);
    lemma_within_weakens(p, 11, 13);
    lemma_within_sum(p, s, 13);
    lemma_within_weakens(d, 14, 15);
    lemma_difference_close(p, s);
    let x = b.num() - a.num();
    let xk = x * k;
    let abk = ab.num() * k;
    let e = abs_int(ab.num() - x) as int;
    assert(abs_int(abk - xk) <= e * u) by (nonlinear_arith)
        requires
            e == abs_int(ab.num() - x),
            abk == ab.num() * k,
            xk == x * k,
            0 <= k <= u,
    ;
    assert(abs_int(abk) <= 0x1000 * u * u) by (nonlinear_arith)
        requires
            abk == ab.num() * k,
            abs_int(ab.num()) <= 0x1000 * u,
            0 <= k <= u,
    ;
    assert(e * PRECISION <= 3 * 0x1000 * u);
    assert(e * u * PRECISION <= 0x3000 * (u * u)) by (nonlinear_arith)
        requires
            e * PRECISION <= 0x3000 * u,
            u > 0,
    ;
    let uu = u * u;
    assert(0x1000 * u * u == 0x1000 * uu) by (nonlinear_arith)
        requires
            uu == u * u,
    ;
    let wu = w.num() * u;
    let e1 = abs_int(wu - abk) as int;
    assert(e1 * PRECISION <= 0x1000 * uu + TINY * u);
    assert(TINY * u <= uu) by (nonlinear_arith)
        requires
            u >= 0x80_0000,
            TINY == 0x80_0000,
            uu == u * u,
    ;
    let e2 = abs_int(s.num() - (a.num() + w.num())) as int;
    let e3 = abs_int(d.num() - (p.num() - s.num())) as int;
    assert(e2 * PRECISION <= 3 * 0x2000 * u);
    assert(e3 * PRECISION <= 3 * 0x4000 * u);
    assert(e2 * u * PRECISION <= 0x6000 * uu && e3 * u * PRECISION <= 0xc000 * uu)
        by (nonlinear_arith)
        requires
            e2 * PRECISION <= 0x6000 * u,
            e3 * PRECISION <= 0xc000 * u,
            uu == u * u,
            u > 0,
    ;
    let du = d.num() * u;
    let pu = p.num() * u;
    let au = a.num() * u;
    let su = s.num() * u;
    assert(abs_int(su - (au + wu)) == e2 * u && abs_int(du - (pu - su)) == e3 * u)
        by (nonlinear_arith)
        requires
            e2 == abs_int(s.num() - (a.num() + w.num())),
            e3 == abs_int(d.num() - (p.num() - s.num())),
            du == d.num() * u,
            pu == p.num() * u,
            au == a.num() * u,
            su == s.num() * u,
            wu == w.num() * u,
            u > 0,
    ;
    assert((p.num() - a.num()) * u == pu - au) by (nonlinear_arith)
        requires
            pu == p.num() * u,
            au == a.num() * u,
    ;
    let off = abs_int(du - (pu - au - xk)) as int;
    assert(off <= e3 * u + e2 * u + e1 + e * u);
    assert(off * PRECISION <= 0x1_7000 * uu);
}

/// The squared distance to a segment is that to the foot on it, up to an
/// eighth of itself and a sixty-fourth of a unit.
pub open spec fn is_distance_at(p: Position, a: Position, b: Position, k: int) -> bool {
    let x = way_off(p.x, a.x, b.x, k);
    let z = way_off(p.z, a.z, b.z, k);
    let u = unit() as int;
    let d = seg_dist2(p, a, b).num() * (u * u * u);
    &&& 16 * d <= 18 * (x * x + z * z) + u * u * u * u
    &&& 16 * d >= 14 * (x * x + z * z) - u * u * u * u
}

/// The distance to a segment is the distance to the place on it that lies
/// nearest, for segments of at least a sixteenth of a unit.
pub proof fn law_segments_are_as_far_as_their_nearest_point(p: Position, a: Position, b: Position)
    requires
        lies_within(p, 11),
        lies_within(a, 11),
        lies_within(b, 11),
        256 * exact_dist2(b, a) >= unit() * unit(),
    ensures
        seg_dist2(p, a, b).is_finite_spec(),
        exists|k: int| #[trigger] is_foot(p, a, b, k) && is_distance_at(p, a, b, k),
{
    let t = seg_param(p, a, b);
    lemma_foot(p, a, b);
    lemma_distance_at(p, a, b);
    assert(is_foot(p, a, b, t.num()) && is_distance_at(p, a, b, t.num()));
}

proof fn lemma_distance_at(p: Position, a: Position, b: Position)
    requires
        lies_within(p, 11),
        lies_within(a, 11),
        lies_within(b, 11),
        seg_param(p, a, b).in_unit(),
        seg_param(p, a, b).is_finite_spec(),
    ensures
        seg_dist2(p, a, b).is_finite_spec(),
        is_distance_at(p, a, b, seg_param(p, a, b).num()),
{
    lemma_unit();
    lemma_unit_large();
    let u = unit() as int;
    let t = seg_param(p, a, b);
    let k = t.num();
    lemma_axis(p.x, a.x, b.x, t);
    lemma_axis(p.z, a.z, b.z, t);
    let dx = p.x.sub_spec(a.x.add_spec(b.x.sub_spec(a.x).mul_spec(t)));
    let dz = p.z.sub_spec(a.z.add_spec(b.z.sub_spec(a.z).mul_spec(t)));
    let sx = dx.mul_spec(dx);
    let sz = dz.mul_spec(dz);
    lemma_within_product(dx, dx, 15, 15);
    lemma_within_product(dz, dz, 15, 15);
    lemma_product_error(dx, dx);
    lemma_product_error(dz, dz);
    lemma_within_sum(sx, sz, 30);
    lemma_sum_close(sx, sz);
    let r = sx.add_spec(sz);
    assert(r == seg_dist2(p, a, b));
    let x = way_off(p.x, a.x, b.x, k);
    let z = way_off(p.z, a.z, b.z, k);
    let uu = u * u;
    let off = uu / 64;
    vstd::arithmetic::div_mod::lemma_fundamental_div_mod(uu, 64);
    assert(off >= 0) by (nonlinear_arith)
        requires
            uu == u * u,
            off == uu / 64,
    ;
    lemma_near_square(dx.num() * u, x, off);
    lemma_near_square(dz.num() * u, z, off);
    // r * u against the squares of dx and dz
    let xx = dx.num() * dx.num();
    let zz = dz.num() * dz.num();
    assert(xx >= 0 && zz >= 0) by (nonlinear_arith)
        requires
            xx == dx.num() * dx.num(),
            zz == dz.num() * dz.num(),
    ;
    let n = xx + zz;
    let e = abs_int(r.num() - (sx.num() + sz.num())) as int;
    lemma_product(dx, dx);
    lemma_product(dz, dz);
    let sxu = sx.num() * u;
    let szu = sz.num() * u;
    let ru = r.num() * u;
    assert(abs_int(ru - (sxu + szu)) == e * u) by (nonlinear_arith)
        requires
            e == abs_int(r.num() - (sx.num() + sz.num())),
            ru == r.num() * u,
            sxu == sx.num() * u,
            szu == sz.num() * u,
            u > 0,
    ;
    assert(e * u * PRECISION <= 3 * (sxu + szu)) by (nonlinear_arith)
        requires
            e * PRECISION <= 3 * (sx.num() + sz.num()),
            sxu == sx.num() * u,
            szu == sz.num() * u,
            u > 0,
    ;
    assert(abs_int(ru - n) * PRECISION <= 8 * n + 4 * (TINY * u));
    assert(1000 * ru <= 1001 * n + 3000 * u && 1000 * ru >= 999 * n - 3000 * u);
    // in fourth powers
    let nn = n * uu;
    let rr = ru * uu;
    assert(1000 * rr <= 1001 * nn + 3000 * (u * uu) && 1000 * rr >= 999 * nn - 3000 * (u * uu))
        by (nonlinear_arith)
        requires
            1000 * ru <= 1001 * n + 3000 * u,
            1000 * ru >= 999 * n - 3000 * u,
            nn == n * uu,
            rr == ru * uu,
            uu >= 0,
    ;
    let dxu = dx.num() * u;
    let dzu = dz.num() * u;
    assert(nn == dxu * dxu + dzu * dzu) by (nonlinear_arith)
        requires
            nn == n * uu,
            n == xx + zz,
            xx == dx.num() * dx.num(),
            zz == dz.num() * dz.num(),
            uu == u * u,
            dxu == dx.num() * u,
            dzu == dz.num() * u,
    ;
    let four = uu * uu;
    let oo = off * off;
    assert(4096 * oo <= four) by (nonlinear_arith)
        requires
            64 * off <= uu,
            off >= 0,
            oo == off * off,
            four == uu * uu,
    ;
    assert(0x1_0000 * (u * uu) <= four) by (nonlinear_arith)
        requires
            four == uu * uu,
            uu == u * u,
            u >= 0x1_0000,
    ;
    let s = x * x + z * z;
    assert(s >= 0) by (nonlinear_arith)
        requires
            s == x * x + z * z,
    ;
    assert(16 * nn <= 17 * s + 544 * oo);
    assert(16 * nn >= 15 * s - 544 * oo);
    assert(16 * rr <= 18 * s + four);
    assert(16 * rr >= 14 * s - four);
    assert(r.num() * (u * u * u) == rr) by (nonlinear_arith)
        requires
            rr == ru * uu,
            ru == r.num() * u,
            uu == u * u,
    ;
    assert(u * u * u * u == four) by (nonlinear_arith)
        requires
            four == uu * uu,
            uu == u * u,
    ;
}

proof fn lemma_foot(p: Position, a: Position, b: Position)
    requires
        lies_within(p, 11),
        lies_within(a, 11),
        lies_within(b, 11),
        256 * exact_dist2(b, a) >= unit() * unit(),
    ensures
        seg_param(p, a, b).in_unit(),
        seg_param(p, a, b).is_finite_spec(),
        is_foot(p, a, b, seg_param(p, a, b).num()),
{
    lemma_unit();
    lemma_unit_large();
    lemma2_to64();
    lemma_one();
    let u = unit() as int;
    lemma_within_weakens(a.x, 11, 16);
    lemma_within_weakens(a.z, 11, 16);
    lemma_within_weakens(b.x, 11, 16);
    lemma_within_weakens(b.z, 11, 16);
    law_distance_is_euclidean(b, a);
    let len2 = exact_dist2(b, a);
    let l2 = dist2(b.x, b.z, a);
    let l = l2.num();
    let uu = u * u;
    let lu = l * u;
    assert(uu >= 0x1_0000_0000_0000 * u) by (nonlinear_arith)
        requires
            uu == u * u,
            u >= 0x1_0000_0000_0000,
    ;
    assert(abs_int(lu - len2) * 0x4_0000 <= len2);
    assert(512 * lu >= uu);
    assert(512 * l >= u) by (nonlinear_arith)
        requires
            512 * (l * u) >= u * u,
            u > 0,
    ;
    let abx = b.x.sub_spec(a.x);
    let abz = b.z.sub_spec(a.z);
    let dx = p.x.sub_spec(a.x);
    let dz = p.z.sub_spec(a.z);
    lemma_cross_close(p.x, a.x, b.x, a.x);
    lemma_cross_close(p.z, a.z, b.z, a.z);
    let sx = dx.mul_spec(abx);
    let sz = dz.mul_spec(abz);
    let dot = sx.add_spec(sz);
    lemma_within_sum(sx, sz, 24);
    lemma_sum_close(sx, sz);
    let x = (p.x.num() - a.x.num()) * (b.x.num() - a.x.num());
    let z = (p.z.num() - a.z.num()) * (b.z.num() - a.z.num());
    let m = (abs_int(x) + abs_int(z)) as int;
    let n = dot.num();
    let nu = n * u;
    let sxu = sx.num() * u;
    let szu = sz.num() * u;
    let e = abs_int(n - (sx.num() + sz.num())) as int;
    assert(abs_int(nu - (sxu + szu)) == e * u) by (nonlinear_arith)
        requires
            e == abs_int(n - (sx.num() + sz.num())),
            nu == n * u,
            sxu == sx.num() * u,
            szu == sz.num() * u,
            u > 0,
    ;
    assert(e * u * PRECISION <= 3 * abs_int(sxu + szu)) by (nonlinear_arith)
        requires
            e * PRECISION <= 3 * abs_int(sx.num() + sz.num()),
            sxu == sx.num() * u,
            szu == sz.num() * u,
            u > 0,
    ;
    assert(abs_int(nu - (x + z)) * PRECISION <= 16 * m + 4 * (TINY * u));
    let q = dot.div_spec(l2);
    assert(abs_int(n) <= pow2(40) * abs_int(l)) by {
        vstd::arithmetic::power2::lemma_pow2_adds(25, 15);
        assert(pow2(40) * l >= pow2(25) * u) by (nonlinear_arith)
            requires
                pow2(40) == pow2(25) * 0x8000,
                512 * l >= u,
                pow2(25) >= 0,
                l >= 0,
        ;
    }
    lemma_within_quotient(dot, l2, 40);
    lemma_quotient_error(dot, l2);
    let t = q.clamp_spec(scalar(ZERO), scalar(ONE));
    assert(!l2.le_spec(scalar(ZERO)));
    assert(t == seg_param(p, a, b));
    assert(t.in_unit() && t.is_finite_spec());
    let k = t.num();
    let ql = q.num() * l;
    let f = abs_int(ql - nu) as int;
    assert(abs_int(n) * u == abs_int(nu)) by (nonlinear_arith)
        requires
            nu == n * u,
            u > 0,
    ;
    assert(f * PRECISION <= abs_int(nu) + TINY * l);
    // in units of u
    let kl = k * l;
    let klu = kl * u;
    let ka = k * len2;
    assert(klu == k * lu) by (nonlinear_arith)
        requires
            klu == kl * u,
            kl == k * l,
            lu == l * u,
    ;
    let g = abs_int(lu - len2) as int;
    assert(abs_int(k * lu - ka) <= g * u) by (nonlinear_arith)
        requires
            g == abs_int(lu - len2),
            ka == k * len2,
            0 <= k <= u,
    ;
    assert(g * u * 0x4_0000 <= len2 * u) by (nonlinear_arith)
        requires
            g * 0x4_0000 <= len2,
            u > 0,
    ;
    let d = x + z;
    let h = abs_int(nu - d) as int;
    let nuu = nu * u;
    let du = d * u;
    assert(abs_int(nuu - du) == h * u) by (nonlinear_arith)
        requires
            h == abs_int(nu - d),
            nuu == nu * u,
            du == d * u,
            u > 0,
    ;
    let mu = m * u;
    assert(h * u * PRECISION <= 16 * mu + 4 * (TINY * uu)) by (nonlinear_arith)
        requires
            h * PRECISION <= 16 * m + 4 * (TINY * u),
            mu == m * u,
            uu == u * u,
            u > 0,
    ;
    assert(abs_int(nu) <= 2 * m + 3 * u);
    assert(f * u * PRECISION <= 2 * mu + 3 * uu + TINY * lu) by (nonlinear_arith)
        requires
            f * PRECISION <= abs_int(nu) + TINY * l,
            abs_int(nu) <= 2 * m + 3 * u,
            mu == m * u,
            uu == u * u,
            lu == l * u,
            u > 0,
    ;
    let au = len2 * u;
    assert(au >= 0x100_0000_0000 * uu) by (nonlinear_arith)
        requires
            256 * len2 >= uu,
            au == len2 * u,
            u >= 0x1_0000_0000_0000,
            uu == u * u,
    ;
    assert(au >= 0x1_0000_0000_0000 * len2) by (nonlinear_arith)
        requires
            au == len2 * u,
            u >= 0x1_0000_0000_0000,
            len2 >= 0,
    ;
    lemma_exact_nonnegative(b, a);
    let qlu = ql * u;
    assert(abs_int(qlu - nuu) == f * u) by (nonlinear_arith)
        requires
            f == abs_int(ql - nu),
            qlu == ql * u,
            nuu == nu * u,
            u > 0,
    ;
    if k < u {
        assert(q.num() <= k);
        assert(qlu <= klu) by (nonlinear_arith)
            requires
                q.num() <= k,
                qlu == q.num() * l * u,
                klu == k * l * u,
                l >= 0,
                u > 0,
        ;
    }
    if k > 0 {
        assert(q.num() >= k);
        assert(qlu >= klu) by (nonlinear_arith)
            requires
                q.num() >= k,
                qlu == q.num() * l * u,
                klu == k * l * u,
                l >= 0,
                u > 0,
        ;
    }
    assert(unit() * (len2 + abs_int(x) + abs_int(z)) == au + mu) by (nonlinear_arith)
        requires
            au == len2 * u,
            mu == m * u,
            m == abs_int(x) + abs_int(z),
            u == unit(),
    ;
    lemma_slack(ka, du, klu, qlu, nuu, f * u, h * u, g * u, au, mu, uu, lu);
}

/// The errors of the foot together.
proof fn lemma_slack(
    ka: int,
    du: int,
    klu: int,
    qlu: int,
    nuu: int,
    f: int,
    h: int,
    g: int,
    au: int,
    mu: int,
    uu: int,
    lu: int,
)
    requires
        abs_int(klu - ka) <= g,
        abs_int(qlu - nuu) <= f,
        abs_int(nuu - du) <= h,
        g * 0x4_0000 <= au,
        h * PRECISION <= 16 * mu + 4 * (TINY * uu),
        f * PRECISION <= 2 * mu + 3 * uu + TINY * lu,
        au >= 0x100_0000_0000 * uu,
        au >= 0x8000_0000_0000 * lu,
        mu >= 0,
        uu >= 0,
        lu >= 0,
    ensures
        qlu <= klu ==> (ka - du) * 0x1_0000 >= -(au + mu),
        qlu >= klu ==> (ka - du) * 0x1_0000 <= au + mu,
{
    assert(TINY * uu * 0x1_0000 <= au);
    assert(TINY * lu * 0x1_0000 <= au);
    assert(h * 0x8_0000 <= mu + au);
    assert(f * 0x8_0000 <= mu + au);
}

} // verus!
