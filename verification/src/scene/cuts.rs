//! Where triangles are cut, and what is left of them.

use super::clip::{
    clipped, crossing, is_split, lemma_cut_sizes, lemma_near, seen, Matrix, Point4, ViewTri, NEAR_Z,
};
use super::shapes::RawTri;
use crate::scalar::arith::abs_int;
use crate::scalar::bounds::{
    lemma_product_error, lemma_product_shrinks, lemma_quotient_error, lemma_unit_large,
    lemma_within_sum, lemma_within_weakens, PRECISION, TINY,
};
use crate::scalar::convert::lemma_unit;
use crate::scalar::{scalar, unit, Scalar};
use crate::sim::laws::distance::{lemma_difference_close, lemma_sum_close};
use vstd::arithmetic::power2::lemma2_to64;
use vstd::prelude::*;

verus! {

/// A coordinate of a cut is to the other end's as the near plane is to the
/// other end's depth, seen from the first end, up to rounding.
pub open spec fn divides_edge(c: Scalar, a: Scalar, b: Scalar, az: Scalar, bz: Scalar) -> bool {
    let part = scalar(NEAR_Z).num() - az.num();
    let whole = bz.num() - az.num();
    c.is_finite_spec() && abs_int(
        (c.num() - a.num()) * whole - (b.num() - a.num()) * part,
    ) * PRECISION <= abs_int(whole) * (3 * abs_int(a.num()) + 40 * abs_int(b.num() - a.num())
        + 0x1000_0000_0000)
}

/// A product of sizes.
proof fn lemma_size(a: int, b: int, v: int, w: int)
    requires
        v == abs_int(a),
        w == abs_int(b),
    ensures
        abs_int(a * b) == v * w,
{
    assert(abs_int(a * b) == v * w) by (nonlinear_arith)
        requires
            v == abs_int(a),
            w == abs_int(b),
    ;
}

/// A size that is few parts of another, times a third.
proof fn lemma_parts(e: int, k: int, x: int, y: int)
    requires
        e * PRECISION <= k * x,
        y >= 0,
    ensures
        e * y * PRECISION <= k * (x * y),
{
    assert(e * y * PRECISION <= k * (x * y)) by (nonlinear_arith)
        requires
            e * PRECISION <= k * x,
            y >= 0,
    ;
}

proof fn lemma_divides(a: Scalar, b: Scalar, az: Scalar, bz: Scalar)
    requires
        a.within(17),
        b.within(17),
        az.within(17),
        bz.within(17),
        is_split(az, bz),
    ensures
        divides_edge(
            a.add_spec(
                b.sub_spec(a).mul_spec(
                    scalar(NEAR_Z).sub_spec(az).div_spec(bz.sub_spec(az)),
                ),
            ),
            a,
            b,
            az,
            bz,
        ),
{
    lemma_unit();
    lemma_unit_large();
    lemma2_to64();
    lemma_near();
    let u = unit() as int;
    let near = scalar(NEAR_Z);
    let d = bz.sub_spec(az);
    let n = near.sub_spec(az);
    let t = n.div_spec(d);
    lemma_cut_sizes(az, bz);
    lemma_difference_close(bz, az);
    lemma_difference_close(near, az);
    lemma_quotient_error(n, d);
    let x = b.sub_spec(a);
    lemma_within_sum(b, a, 17);
    lemma_difference_close(b, a);
    let w = x.mul_spec(t);
    lemma_product_shrinks(x, t);
    lemma_product_error(x, t);
    let c = a.add_spec(w);
    lemma_within_weakens(a, 17, 18);
    lemma_within_sum(a, w, 18);
    lemma_sum_close(a, w);
    // exact values and sizes
    let part = near.num() - az.num();
    let whole = bz.num() - az.num();
    let side = b.num() - a.num();
    let (dn, nn, tn, xn, wn) = (d.num(), n.num(), t.num(), x.num(), w.num());
    let v = abs_int(whole) as int;
    let s = abs_int(side) as int;
    let dv = abs_int(dn) as int;
    let nv = abs_int(nn) as int;
    let xv = abs_int(xn) as int;
    // u * w * d against x * t * d against x * n * u
    let e1 = abs_int(wn * u - xn * tn) as int;
    assert(abs_int(xn * tn) <= xv * u) by (nonlinear_arith)
        requires
            xv == abs_int(xn),
            abs_int(tn) <= u,
    ;
    assert(e1 * PRECISION <= xv * u + TINY * u);
    let e2 = abs_int(tn * dn - nn * u) as int;
    assert(e2 * PRECISION <= nv * u + TINY * dv);
    let xd = xv * dv;
    let ud = u * dv;
    assert(e1 * dv * PRECISION <= (xd + TINY * dv) * u) by (nonlinear_arith)
        requires
            e1 * PRECISION <= xv * u + TINY * u,
            xd == xv * dv,
            dv >= 0,
    ;
    assert(xv <= 0x4_0000 * u);
    assert(e2 * xv * PRECISION <= (xd + 0x4_0000 * TINY * dv) * u) by (nonlinear_arith)
        requires
            e2 * PRECISION <= nv * u + TINY * dv,
            nv <= dv,
            xd == xv * dv,
            0 <= xv <= 0x4_0000 * u,
            dv >= 0,
            u > 0,
    ;
    lemma_size(wn * u - xn * tn, dn, e1, dv);
    lemma_size(xn, tn * dn - nn * u, xv, e2);
    let wd = wn * dn;
    let xnn = xn * nn;
    assert((wn * u - xn * tn) * dn + xn * (tn * dn - nn * u) == (wd - xnn) * u)
        by (nonlinear_arith)
        requires
            wd == wn * dn,
            xnn == xn * nn,
    ;
    let e3 = abs_int(wd - xnn) as int;
    assert(abs_int((wd - xnn) * u) == e3 * u) by (nonlinear_arith)
        requires
            e3 == abs_int(wd - xnn),
            u > 0,
    ;
    assert(xv * e2 == e2 * xv) by (nonlinear_arith);
    assert(e3 * u <= e1 * dv + e2 * xv);
    assert(e3 * u * PRECISION <= (2 * xd + 0x400_0000_0000 * dv) * u) by (nonlinear_arith)
        requires
            e3 * u <= e1 * dv + e2 * xv,
            e1 * dv * PRECISION <= (xd + TINY * dv) * u,
            e2 * xv * PRECISION <= (xd + 0x4_0000 * TINY * dv) * u,
            TINY == 0x80_0000,
            dv >= 0,
            u > 0,
    ;
    assert(e3 * PRECISION <= 2 * xd + 0x400_0000_0000 * dv) by (nonlinear_arith)
        requires
            e3 * u * PRECISION <= (2 * xd + 0x400_0000_0000 * dv) * u,
            u > 0,
    ;
    // the roundings of the ends
    let e4 = abs_int(c.num() - (a.num() + wn)) as int;
    let e5 = abs_int(dn - whole) as int;
    let e6 = abs_int(nn - part) as int;
    let e7 = abs_int(xn - side) as int;
    let av = abs_int(a.num()) as int;
    let pv = abs_int(part) as int;
    let wv = abs_int(wn) as int;
    assert(1000 * dv <= 1001 * v && 1000 * xv <= 1001 * s && pv <= v && wv <= xv);
    lemma_parts(e4, 3, av + wv, v);
    lemma_parts(e5, 3, v, wv);
    lemma_parts(e6, 3, pv, xv);
    lemma_parts(e7, 3, s, pv);
    lemma_size(c.num() - (a.num() + wn), whole, e4, v);
    lemma_size(wn, whole - dn, wv, e5);
    lemma_size(xn, nn - part, xv, e6);
    lemma_size(xn - side, part, e7, pv);
    let m = (c.num() - a.num()) * whole - side * part;
    let ca = c.num() - a.num();
    assert((c.num() - (a.num() + wn)) * whole == ca * whole - wn * whole) by (nonlinear_arith)
        requires
            ca == c.num() - a.num(),
    ;
    assert(wn * (whole - dn) == wn * whole - wn * dn) by (nonlinear_arith);
    assert(xn * (nn - part) == xn * nn - xn * part) by (nonlinear_arith);
    assert((xn - side) * part == xn * part - side * part) by (nonlinear_arith);
    assert(m == (c.num() - (a.num() + wn)) * whole + wn * (whole - dn) + (wd - xnn) + xn * (nn
        - part) + (xn - side) * part);
    assert(wv * e5 == e5 * wv && xv * e6 == e6 * xv) by (nonlinear_arith);
    let sv = s * v;
    let avv = av * v;
    assert((av + wv) * v <= avv + 2 * sv && v * wv <= 2 * sv && pv * xv <= 2 * sv && s * pv <= sv
        && xd <= 2 * sv) by (nonlinear_arith)
        requires
            avv == av * v,
            sv == s * v,
            xd == xv * dv,
            1000 * dv <= 1001 * v,
            1000 * xv <= 1001 * s,
            0 <= pv <= v,
            0 <= wv <= xv,
            dv >= 0,
            s >= 0,
            v >= 0,
    ;
    let k = abs_int(m) as int;
    assert(k <= e4 * v + e5 * wv + e3 + e6 * xv + e7 * pv);
    assert(k * PRECISION <= 3 * avv + 40 * sv + 0x1000_0000_0000 * v);
    assert(v * (3 * av + 40 * s + 0x1000_0000_0000) == 3 * avv + 40 * sv + 0x1000_0000_0000 * v)
        by (nonlinear_arith)
        requires
            avv == av * v,
            sv == s * v,
    ;
}

/// A cut lies on the edge that it cuts: each of its coordinates divides the way
/// from one end to the other as the near plane divides the depth, up to
/// rounding.
pub proof fn law_cuts_lie_on_their_edge(a: Point4, b: Point4)
    requires
        a.within(17),
        b.within(17),
        a.is_ahead() != b.is_ahead(),
    ensures
        divides_edge(crossing(a, b).x, a.x, b.x, a.z, b.z),
        divides_edge(crossing(a, b).y, a.y, b.y, a.z, b.z),
        divides_edge(crossing(a, b).z, a.z, b.z, a.z, b.z),
        divides_edge(crossing(a, b).w, a.w, b.w, a.z, b.z),
{
    lemma_within_sum(b.z, a.z, 17);
    lemma_divides(a.x, b.x, a.z, b.z);
    lemma_divides(a.y, b.y, a.z, b.z);
    lemma_divides(a.z, b.z, a.z, b.z);
    lemma_divides(a.w, b.w, a.z, b.z);
}

/// The point is a corner of the triangle.
pub open spec fn is_corner(t: ViewTri, p: Point4) -> bool {
    p == t.a || p == t.b || p == t.c
}

/// The point is a corner of one of the triangles.
pub open spec fn has_corner(s: Seq<ViewTri>, p: Point4) -> bool {
    exists|i: int| 0 <= i < s.len() && is_corner(#[trigger] s[i], p)
}

/// How many of three points lie ahead.
pub open spec fn count_ahead(a: Point4, b: Point4, c: Point4) -> int {
    (if a.is_ahead() {
        1int
    } else {
        0
    }) + (if b.is_ahead() {
        1int
    } else {
        0
    }) + (if c.is_ahead() {
        1int
    } else {
        0
    })
}

/// What is left of a triangle: every corner that lies ahead and the cut of
/// every edge that the near plane cuts are corners of the pieces, nothing else
/// is, and there are one piece for one or three corners ahead and two for two,
/// which then share an edge.
pub proof fn law_pieces_have_the_right_corners(t: RawTri, view: Matrix, p: Point4)
    ensures
        ({
            let a = seen(view, t.a);
            let b = seen(view, t.b);
            let c = seen(view, t.c);
            let s = clipped(t, view);
            let n = count_ahead(a, b, c);
            &&& s.len() == (if n == 0 {
                0int
            } else if n == 2 {
                2
            } else {
                1
            })
            &&& n > 0 && n < 3 ==> has_corner(s, p) == (is_left(a, b, p) || is_left(b, c, p)
                || is_left(c, a, p))
            &&& n == 3 ==> has_corner(s, p) == (p == a || p == b || p == c)
            &&& n == 2 ==> s[0].a == s[1].a && s[0].c == s[1].b
        }),
{
    let a = seen(view, t.a);
    let b = seen(view, t.b);
    let c = seen(view, t.c);
    let s = clipped(t, view);
    super::clip::law_clipping_keeps_what_is_visible(t, view);
    let poly = super::clip::outline(a, b, c);
    if count_ahead(a, b, c) == 1 || count_ahead(a, b, c) == 3 {
        assert(poly.len() == 3);
        assert(s.len() == 1 && s[0] == ViewTri { a: poly[0], b: poly[1], c: poly[2] });
        if has_corner(s, p) {
            let i = choose|i: int| 0 <= i < s.len() && is_corner(#[trigger] s[i], p);
            assert(i == 0);
        }
        assert(is_corner(s[0], p) ==> has_corner(s, p));
    } else if count_ahead(a, b, c) == 2 {
        assert(poly.len() == 4);
        assert(s.len() == 2);
        assert(s[0] == ViewTri { a: poly[0], b: poly[1], c: poly[2] });
        assert(s[1] == ViewTri { a: poly[0], b: poly[2], c: poly[3] });
        if has_corner(s, p) {
            let i = choose|i: int| 0 <= i < s.len() && is_corner(#[trigger] s[i], p);
            assert(i == 0 || i == 1);
        }
        assert(is_corner(s[0], p) ==> has_corner(s, p));
        assert(is_corner(s[1], p) ==> has_corner(s, p));
    }
}

/// What is left of the edge from `a` to `b`: its ends that lie ahead, and its
/// cut where they lie on different sides.
pub open spec fn is_left(a: Point4, b: Point4, p: Point4) -> bool {
    ||| a.is_ahead() && p == a
    ||| b.is_ahead() && p == b
    ||| a.is_ahead() != b.is_ahead() && p == crossing(a, b)
}

} // verus!
