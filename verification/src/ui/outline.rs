//! Which points an outline encloses.

use super::zoning::{crosses, in_polygon, odd_crossings};
use crate::scalar::{unit, Scalar};
use crate::scalar::arith::abs_int;
use crate::scalar::bounds::{
    lemma_product_error, lemma_quotient_error, lemma_unit_large, lemma_within_product,
    lemma_within_quotient, lemma_within_sum, lemma_within_weakens, PRECISION, TINY,
};
use crate::scalar::convert::lemma_unit;
use crate::sim::agent::Position;
use crate::sim::laws::distance::{lemma_difference_close, lemma_sum_close};
use vstd::arithmetic::power2::lemma2_to64;
use vstd::prelude::*;

verus! {

/// A point has moderate coordinates.
pub open spec fn is_near(p: Position) -> bool {
    p.x.within(12) && p.z.within(12)
}

/// How far right of an edge a point lies, times the height of the edge.
pub open spec fn side_of(p: Position, a: Position, b: Position) -> int {
    (p.x.num() - a.x.num()) * (b.z.num() - a.z.num()) - (b.x.num() - a.x.num()) * (p.z.num()
        - a.z.num())
}

/// A point is so near to an edge that rounding may decide on which side it is.
pub open spec fn is_close_call(p: Position, a: Position, b: Position) -> bool {
    abs_int(side_of(p, a, b)) * PRECISION <= abs_int(b.z.num() - a.z.num()) * (3 * abs_int(
        a.x.num(),
    ) + 300 * abs_int(b.x.num() - a.x.num()) + 0x40_0000_0000)
}

/// Sizes multiply.
proof fn lemma_size(a: int, b: int, v: int, w: int)
    requires
        v == abs_int(a),
        w == abs_int(b),
    ensures
        abs_int(a * b) == v * w,
{
    assert(abs_int(a * b) == v * w) by (nonlinear_arith)
        requires
            v == abs_int(a),
            w == abs_int(b),
    ;
}

/// Six errors add up.
proof fn lemma_six(total: int, a: int, b: int, c: int, d: int, e: int, f: int)
    requires
        total == a + b + c + d + e + f,
    ensures
        abs_int(total) <= abs_int(a) + abs_int(b) + abs_int(c) + abs_int(d) + abs_int(e) + abs_int(f),
{
}

/// Where the edge crosses the height of the point.
pub open spec fn crossing_at(p: Position, a: Position, b: Position) -> Scalar {
    a.x.add_spec(p.z.sub_spec(a.z).mul_spec(b.x.sub_spec(a.x)).div_spec(b.z.sub_spec(a.z)))
}

#[verifier::rlimit(40)]
proof fn lemma_crossing(p: Position, a: Position, b: Position)
    requires
        is_near(p),
        is_near(a),
        is_near(b),
        p.z.lt_spec(a.z) != p.z.lt_spec(b.z),
        abs_int(b.z.num() - a.z.num()) * 1024 >= unit(),
    ensures
        ({
            let c = crossing_at(p, a, b);
            &&& c.is_finite_spec()
            &&& abs_int(
                (c.num() - a.x.num()) * (b.z.num() - a.z.num()) - (b.x.num() - a.x.num()) * (
                p.z.num() - a.z.num()),
            ) * PRECISION <= abs_int(b.z.num() - a.z.num()) * (3 * abs_int(a.x.num()) + 300
                * abs_int(b.x.num() - a.x.num()) + 0x40_0000_0000)
        }),
{
    lemma_unit();
    lemma_unit_large();
    lemma2_to64();
    let u = unit() as int;
    let (ns, xs, ds) = (p.z.sub_spec(a.z), b.x.sub_spec(a.x), b.z.sub_spec(a.z));
    lemma_within_sum(p.z, a.z, 12);
    lemma_within_sum(b.x, a.x, 12);
    lemma_within_sum(b.z, a.z, 12);
    lemma_difference_close(p.z, a.z);
    lemma_difference_close(b.x, a.x);
    lemma_difference_close(b.z, a.z);
    let (en, ex, ed) = (
        p.z.num() - a.z.num(),
        b.x.num() - a.x.num(),
        b.z.num() - a.z.num(),
    );
    let (n, x, d) = (ns.num(), xs.num(), ds.num());
    let v = abs_int(ed) as int;
    let s = abs_int(ex) as int;
    let g = abs_int(en) as int;
    assert(g <= v);
    let (nv, xv, dv) = (abs_int(n) as int, abs_int(x) as int, abs_int(d) as int);
    assert(nv <= 2 * v && xv <= 2 * s && dv <= 2 * v && v <= 2 * dv);
    assert(v >= 1);
    let ms = ns.mul_spec(xs);
    lemma_within_product(ns, xs, 13, 13);
    lemma_product_error(ns, xs);
    let m = ms.num();
    let vs = v * s;
    lemma_size(n, x, nv, xv);
    assert(nv * xv <= 4 * vs) by (nonlinear_arith)
        requires
            0 <= nv <= 2 * v,
            0 <= xv <= 2 * s,
            vs == v * s,
    ;
    let nx = n * x;
    let em = m * u - nx;
    assert(abs_int(em) * PRECISION <= abs_int(nx) + TINY * u);
    let mv = abs_int(m) as int;
    lemma_size(m, u, mv, u);
    let mu = mv * u;
    assert(mu <= 8 * vs + TINY * u) by {
        assert(abs_int(m * u) <= abs_int(nx) + abs_int(em));
    }
    // the quotient is bounded
    assert(s <= 0x4000 * u);
    assert(vs <= 0x4000 * (v * u)) by (nonlinear_arith)
        requires
            vs == v * s,
            s <= 0x4000 * u,
            v >= 1,
    ;
    let most = 0x2_0000 * v + TINY;
    assert(most * u == 0x2_0000 * (v * u) + TINY * u) by (nonlinear_arith)
        requires
            most == 0x2_0000 * v + TINY,
    ;
    assert(mv <= most) by (nonlinear_arith)
        requires
            mv * u <= most * u,
            u > 0,
    ;
    assert(mv <= 0x200_0000 * dv);
    lemma_within_quotient(ms, ds, 25);
    lemma_quotient_error(ms, ds);
    let ts = ms.div_spec(ds);
    let t = ts.num();
    let tv = abs_int(t) as int;
    let td = t * d;
    let et = td - m * u;
    assert(abs_int(et) * PRECISION <= mu + TINY * dv);
    lemma_size(t, d, tv, dv);
    assert(tv * dv <= 2 * mu + TINY * dv) by {
        assert(abs_int(td) <= abs_int(m * u) + abs_int(et));
    }
    let tvv = tv * v;
    assert(tvv <= 2 * (tv * dv)) by (nonlinear_arith)
        requires
            tvv == tv * v,
            v <= 2 * dv,
            tv >= 0,
    ;
    let cs = a.x.add_spec(ts);
    lemma_within_weakens(a.x, 12, 25);
    lemma_within_sum(a.x, ts, 25);
    lemma_sum_close(a.x, ts);
    let av = abs_int(a.x.num()) as int;
    let c = cs.num();
    let ec = c - a.x.num() - t;
    let avv = av * v;
    // the six errors
    let e1 = ec * ed;
    let e2 = t * (ed - d);
    let e5 = (n - en) * x;
    let e6 = en * (x - ex);
    let total = (c - a.x.num()) * ed - ex * en;
    assert(e1 == (c - a.x.num()) * ed - t * ed) by (nonlinear_arith)
        requires
            e1 == ec * ed,
            ec == c - a.x.num() - t,
    ;
    assert(e2 == t * ed - td) by (nonlinear_arith)
        requires
            e2 == t * (ed - d),
            td == t * d,
    ;
    assert(e5 == nx - en * x) by (nonlinear_arith)
        requires
            e5 == (n - en) * x,
            nx == n * x,
    ;
    assert(e6 == en * x - ex * en) by (nonlinear_arith)
        requires
            e6 == en * (x - ex),
    ;
    lemma_six(total, e1, e2, et, em, e5, e6);
    let w1 = abs_int(ec) as int;
    lemma_size(ec, ed, w1, v);
    assert(w1 * PRECISION <= 3 * (av + tv));
    assert(w1 * v * PRECISION <= 3 * avv + 3 * tvv) by (nonlinear_arith)
        requires
            w1 * PRECISION <= 3 * (av + tv),
            avv == av * v,
            tvv == tv * v,
            v >= 0,
    ;
    let w2 = abs_int(ed - d) as int;
    lemma_size(t, ed - d, tv, w2);
    assert(tv * w2 * PRECISION <= 3 * tvv) by (nonlinear_arith)
        requires
            w2 * PRECISION <= 3 * v,
            tvv == tv * v,
            tv >= 0,
    ;
    let w5 = abs_int(n - en) as int;
    lemma_size(n - en, x, w5, xv);
    assert(w5 * xv * PRECISION <= 6 * vs) by (nonlinear_arith)
        requires
            w5 * PRECISION <= 3 * g,
            0 <= g <= v,
            0 <= xv <= 2 * s,
            vs == v * s,
    ;
    let w6 = abs_int(x - ex) as int;
    lemma_size(en, x - ex, g, w6);
    assert(g * w6 * PRECISION <= 3 * vs) by (nonlinear_arith)
        requires
            w6 * PRECISION <= 3 * s,
            0 <= g <= v,
            w6 >= 0,
            s >= 0,
            vs == v * s,
    ;
    assert(u <= 1024 * v);
    let bound = 3 * avv + 300 * vs + 0x40_0000_0000 * v;
    assert(abs_int(total) * PRECISION <= bound);
    assert(bound == v * (3 * av + 300 * s + 0x40_0000_0000)) by (nonlinear_arith)
        requires
            bound == 3 * avv + 300 * vs + 0x40_0000_0000 * v,
            avv == av * v,
            vs == v * s,
    ;
}

/// The ray to the right crosses an edge exactly when the edge spans the height
/// of the point and passes right of it, but for close calls.
pub proof fn law_rays_cross_what_lies_right(p: Position, a: Position, b: Position)
    requires
        is_near(p),
        is_near(a),
        is_near(b),
        abs_int(b.z.num() - a.z.num()) * 1024 >= unit(),
        !is_close_call(p, a, b),
    ensures
        crosses(p, a, b) == ((p.z.num() < a.z.num()) != (p.z.num() < b.z.num()) && (if b.z.num()
            > a.z.num() {
            side_of(p, a, b) < 0
        } else {
            side_of(p, a, b) > 0
        })),
{
    lemma_unit();
    if p.z.lt_spec(a.z) != p.z.lt_spec(b.z) {
        lemma_crossing(p, a, b);
        let c = crossing_at(p, a, b).num();
        let ed = b.z.num() - a.z.num();
        let left = (c - a.x.num()) * ed;
        let right = (p.x.num() - a.x.num()) * ed;
        let xn = (b.x.num() - a.x.num()) * (p.z.num() - a.z.num());
        assert(left - right == (c - p.x.num()) * ed) by (nonlinear_arith)
            requires
                left == (c - a.x.num()) * ed,
                right == (p.x.num() - a.x.num()) * ed,
        ;
        let side = side_of(p, a, b);
        assert(side == right - xn);
        assert(abs_int(left - xn) * PRECISION < abs_int(side) * PRECISION);
        assert(abs_int(left - xn) < abs_int(side));
        let h = c - p.x.num();
        assert((left - right > 0) == (side < 0));
        assert(ed > 0 ==> (h > 0) == (h * ed > 0)) by (nonlinear_arith);
        assert(ed < 0 ==> (h > 0) == (h * ed < 0)) by (nonlinear_arith);
    }
}

/// Points above or below all corners are outside.
pub proof fn law_outlines_end_at_their_corners(p: Position, poly: Seq<Position>, k: int)
    requires
        0 <= k <= poly.len(),
        (forall|i: int| 0 <= i < poly.len() ==> p.z.lt_spec((#[trigger] poly[i]).z)) || (forall|
            i: int,
        |
            0 <= i < poly.len() ==> !p.z.lt_spec((#[trigger] poly[i]).z)),
    ensures
        !odd_crossings(p, poly, k),
    decreases k,
{
    if k > 0 {
        law_outlines_end_at_their_corners(p, poly, k - 1);
    }
}

/// Number of the first `k` edges that the ray to the right crosses, each edge
/// from a corner to the one before, the first corner following the last.
pub open spec fn crossings(p: Position, poly: Seq<Position>, k: int) -> nat
    decreases k,
{
    if k <= 0 {
        0
    } else {
        crossings(p, poly, k - 1) + if crosses(
            p,
            poly[k - 1],
            poly[(k - 2 + poly.len()) % poly.len() as int],
        ) {
            1nat
        } else {
            0
        }
    }
}

/// A point is inside exactly when the ray to the right crosses an odd number of
/// edges.
pub proof fn law_inside_is_odd(p: Position, poly: Seq<Position>)
    ensures
        in_polygon(p, poly) == (crossings(p, poly, poly.len() as int) % 2 == 1),
{
    lemma_parity(p, poly, poly.len() as int);
}

proof fn lemma_parity(p: Position, poly: Seq<Position>, k: int)
    requires
        0 <= k <= poly.len(),
    ensures
        odd_crossings(p, poly, k) == (crossings(p, poly, k) % 2 == 1),
    decreases k,
{
    if k > 0 {
        lemma_parity(p, poly, k - 1);
        let n = poly.len() as int;
        if k == 1 {
            vstd::arithmetic::div_mod::lemma_small_mod((n - 1) as nat, n as nat);
        } else {
            vstd::arithmetic::div_mod::lemma_fundamental_div_mod_converse(
                k - 2 + n,
                n,
                1,
                k - 2,
            );
        }
    }
}

} // verus!
