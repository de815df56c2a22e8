//! Clipping against the near plane.

use super::shapes::{Point3, RawTri};
use crate::scalar::arith::abs_int;
use crate::scalar::bounds::{
    lemma_difference, lemma_difference_error, lemma_product_error, lemma_product_shrinks,
    lemma_quotient_error, lemma_sum, lemma_sum_error, lemma_within_quotient, PRECISION, TINY,
};
use crate::scalar::consts::ONE;
use crate::scalar::convert::{lemma_representable, lemma_unit};
use crate::scalar::order::{lemma_nearest_monotone, lemma_one};
use crate::scalar::round::lemma_magnitude_increases;
use crate::scalar::{magnitude, scalar, unit, Scalar, BINADE, INF_PATTERN};
use vstd::arithmetic::power2::{lemma2_to64, lemma_pow2_adds, lemma_pow2_pos, pow2};
use vstd::prelude::*;

verus! {

/// Near-plane distance used for clipping (0.5). The projection is valid only
/// beyond it: closer points would make the perspective divide explode.
pub const NEAR: u32 = 0x3f00_0000;

/// View-space depth of the near plane (-0.5).
pub const NEAR_Z: u32 = 0xbf00_0000;

/// A point in homogeneous coordinates.
#[derive(Clone, Copy, Debug, PartialEq, Eq, Structural)]
pub struct Point4 {
    pub x: Scalar,
    pub y: Scalar,
    pub z: Scalar,
    pub w: Scalar,
}

/// A matrix by its four columns.
#[derive(Clone, Copy, Debug, PartialEq, Eq, Structural)]
pub struct Matrix {
    pub x: Point4,
    pub y: Point4,
    pub z: Point4,
    pub w: Point4,
}

impl Point4 {
    pub open spec fn scaled(self, s: Scalar) -> Point4 {
        Point4 {
            x: self.x.mul_spec(s),
            y: self.y.mul_spec(s),
            z: self.z.mul_spec(s),
            w: self.w.mul_spec(s),
        }
    }

    pub open spec fn plus(self, o: Point4) -> Point4 {
        Point4 {
            x: self.x.add_spec(o.x),
            y: self.y.add_spec(o.y),
            z: self.z.add_spec(o.z),
            w: self.w.add_spec(o.w),
        }
    }

    pub open spec fn minus(self, o: Point4) -> Point4 {
        Point4 {
            x: self.x.sub_spec(o.x),
            y: self.y.sub_spec(o.y),
            z: self.z.sub_spec(o.z),
            w: self.w.sub_spec(o.w),
        }
    }

    fn scale(self, s: Scalar) -> (r: Point4)
        ensures
            r == self.scaled(s),
    {
        Point4 { x: self.x.mul(s), y: self.y.mul(s), z: self.z.mul(s), w: self.w.mul(s) }
    }

    fn add(self, o: Point4) -> (r: Point4)
        ensures
            r == self.plus(o),
    {
        Point4 {
            x: self.x.add(o.x),
            y: self.y.add(o.y),
            z: self.z.add(o.z),
            w: self.w.add(o.w),
        }
    }

    fn sub(self, o: Point4) -> (r: Point4)
        ensures
            r == self.minus(o),
    {
        Point4 {
            x: self.x.sub(o.x),
            y: self.y.sub(o.y),
            z: self.z.sub(o.z),
            w: self.w.sub(o.w),
        }
    }

    /// The point lies at the near plane or beyond.
    pub open spec fn is_ahead(self) -> bool {
        self.z.le_spec(scalar(NEAR_Z))
    }
}

impl Matrix {
    /// The columns weighted by the coordinates of a point, summed from the
    /// first to the last.
    pub open spec fn applied(self, p: Point4) -> Point4 {
        self.x.scaled(p.x).plus(self.y.scaled(p.y)).plus(self.z.scaled(p.z)).plus(
            self.w.scaled(p.w),
        )
    }

    pub fn apply(&self, p: Point4) -> (r: Point4)
        ensures
            r == self.applied(p),
    {
        self.x.scale(p.x).add(self.y.scale(p.y)).add(self.z.scale(p.z)).add(self.w.scale(p.w))
    }
}

/// A world-space point as seen through the view matrix.
pub open spec fn seen(view: Matrix, p: Point3) -> Point4 {
    view.applied(Point4 { x: p.x, y: p.y, z: p.z, w: scalar(ONE) })
}

fn see(view: &Matrix, p: Point3) -> (r: Point4)
    ensures
        r == seen(*view, p),
{
    view.apply(Point4 { x: p.x, y: p.y, z: p.z, w: scalar(ONE) })
}

/// Point where the segment from `a` to `b` crosses the near plane.
pub open spec fn crossing(a: Point4, b: Point4) -> Point4 {
    let t = scalar(NEAR_Z).sub_spec(a.z).div_spec(b.z.sub_spec(a.z));
    a.plus(b.minus(a).scaled(t))
}

/// Point where segment `a -> b` crosses the near plane. The view transform is
/// affine, so linear interpolation is exact up to rounding.
pub fn intersect_near(a: Point4, b: Point4) -> (r: Point4)
    ensures
        r == crossing(a, b),
{
    let t: Scalar = scalar(NEAR_Z).sub(a.z).div(b.z.sub(a.z));
    a.add(b.sub(a).scale(t))
}

/// What the edge from `prev` to `cur` adds to the clipped outline.
pub open spec fn edge_part(prev: Point4, cur: Point4) -> Seq<Point4> {
    if cur.is_ahead() {
        if prev.is_ahead() {
            seq![cur]
        } else {
            seq![crossing(prev, cur), cur]
        }
    } else if prev.is_ahead() {
        seq![crossing(prev, cur)]
    } else {
        Seq::empty()
    }
}

/// Outline of a triangle cut at the near plane.
pub open spec fn outline(a: Point4, b: Point4, c: Point4) -> Seq<Point4> {
    edge_part(c, a) + edge_part(a, b) + edge_part(b, c)
}

/// A triangle in view space.
#[derive(Clone, Copy, Debug, PartialEq, Eq, Structural)]
pub struct ViewTri {
    pub a: Point4,
    pub b: Point4,
    pub c: Point4,
}

/// An outline as a fan of triangles around its first point.
pub open spec fn fan(poly: Seq<Point4>) -> Seq<ViewTri> {
    if poly.len() < 3 {
        Seq::empty()
    } else {
        Seq::new(
            (poly.len() - 2) as nat,
            |i: int| ViewTri { a: poly[0], b: poly[i + 1], c: poly[i + 2] },
        )
    }
}

/// The part of a triangle that lies beyond the near plane, in view space.
pub open spec fn clipped(t: RawTri, view: Matrix) -> Seq<ViewTri> {
    fan(outline(seen(view, t.a), seen(view, t.b), seen(view, t.c)))
}

fn push_edge(out: &mut Vec<Point4>, prev: Point4, cur: Point4)
    ensures
        final(out)@ == old(out)@ + edge_part(prev, cur),
{
    let cur_in: bool = cur.z.le(scalar(NEAR_Z));
    let prev_in: bool = prev.z.le(scalar(NEAR_Z));
    if cur_in {
        if !prev_in {
            out.push(intersect_near(prev, cur));
        }
        out.push(cur);
    } else if prev_in {
        out.push(intersect_near(prev, cur));
    }
    proof {
        assert(out@ =~= old(out)@ + edge_part(prev, cur));
    }
}

/// Clip a triangle against the near plane in view space. Gives no triangle
/// (fully behind), one (inside, or cut to a smaller triangle) or two (cut to
/// a quad).
pub fn clip_near(t: &RawTri, view: &Matrix) -> (r: Vec<ViewTri>)
    ensures
        r@ == clipped(*t, *view),
        r.len() <= 2,
{
    let a: Point4 = see(view, t.a);
    let b: Point4 = see(view, t.b);
    let c: Point4 = see(view, t.c);
    let mut poly: Vec<Point4> = Vec::new();
    push_edge(&mut poly, c, a);
    push_edge(&mut poly, a, b);
    push_edge(&mut poly, b, c);
    proof {
        assert(poly@ =~= outline(a, b, c));
        lemma_outline(a, b, c);
    }
    let mut r: Vec<ViewTri> = Vec::new();
    if poly.len() >= 3 {
        let mut i: usize = 0;
        while i < poly.len() - 2
            invariant
                3 <= poly.len() <= 4,
                i <= poly.len() - 2,
                r.len() == i,
                forall|j: int|
                    0 <= j < i ==> #[trigger] r[j] == (ViewTri {
                        a: poly[0],
                        b: poly[j + 1],
                        c: poly[j + 2],
                    }),
            decreases poly.len() - i,
        {
            r.push(ViewTri { a: poly[0], b: poly[i + 1], c: poly[i + 2] });
            i += 1;
        }
    }
    proof {
        assert(r@ =~= fan(poly@));
    }
    r
}

/// A cut triangle has at most four corners.
proof fn lemma_outline(a: Point4, b: Point4, c: Point4)
    ensures
        outline(a, b, c).len() <= 4,
        outline(a, b, c).len() != 1,
        outline(a, b, c).len() != 2,
{
}

/// A triangle wholly beyond the near plane passes through whole; one wholly
/// before it vanishes; and a triangle with a corner on each side is cut, but
/// never lost.
pub proof fn law_clipping_keeps_what_is_visible(t: RawTri, view: Matrix)
    ensures
        ({
            let a = seen(view, t.a);
            let b = seen(view, t.b);
            let c = seen(view, t.c);
            &&& a.is_ahead() && b.is_ahead() && c.is_ahead() ==> clipped(t, view) == seq![
                ViewTri { a, b, c },
            ]
            &&& (clipped(t, view).len() == 0 <==> !a.is_ahead() && !b.is_ahead() && !c.is_ahead())
            &&& clipped(t, view).len() <= 2
        }),
{
    let a = seen(view, t.a);
    let b = seen(view, t.b);
    let c = seen(view, t.c);
    lemma_outline(a, b, c);
    if a.is_ahead() && b.is_ahead() && c.is_ahead() {
        assert(outline(a, b, c) =~= seq![a, b, c]);
        assert(clipped(t, view) =~= seq![ViewTri { a, b, c }]);
    }
}

/// View-space depth of the near plane, in units of two to the minus 149.
pub proof fn lemma_near()
    ensures
        scalar(NEAR_Z).is_finite_spec(),
        2 * scalar(NEAR_Z).num() == -(unit() as int),
{
    lemma2_to64();
    vstd::arithmetic::div_mod::lemma_fundamental_div_mod_converse(
        NEAR as int,
        BINADE as int,
        126,
        0,
    );
    lemma_pow2_adds(23, 125);
    lemma_pow2_adds(1, 148);
    assert(scalar(NEAR_Z).pattern() == NEAR);
}

/// The depth of a cut, step by step.
ghost struct Cut {
    /// From the first end to the second.
    d: Scalar,
    /// From the first end to the near plane.
    n: Scalar,
    /// The part of the way.
    t: Scalar,
    /// The way.
    w: Scalar,
}

spec fn cut(a: Scalar, b: Scalar) -> Cut {
    let d = b.sub_spec(a);
    let n = scalar(NEAR_Z).sub_spec(a);
    let t = n.div_spec(d);
    Cut { d, n, t, w: d.mul_spec(t) }
}

/// Two depths lie on different sides of the near plane, and their difference
/// does not overflow.
pub open spec fn is_split(a: Scalar, b: Scalar) -> bool {
    &&& a.is_finite_spec()
    &&& b.is_finite_spec()
    &&& a.le_spec(scalar(NEAR_Z)) != b.le_spec(scalar(NEAR_Z))
    &&& b.sub_spec(a).is_finite_spec()
}

/// Nothing overflows on the way to a cut, and no part exceeds the whole.
proof fn lemma_cut_finite(a: Scalar, b: Scalar)
    requires
        is_split(a, b),
    ensures
        ({
            let c = cut(a, b);
            &&& c.n.is_finite_spec() && c.t.is_finite_spec() && c.w.is_finite_spec()
            &&& c.d.num() != 0
            &&& abs_int(c.n.num()) <= abs_int(c.d.num())
            &&& abs_int(c.t.num()) <= unit()
            &&& abs_int(c.w.num()) <= abs_int(c.d.num())
            &&& abs_int(scalar(NEAR_Z).num() - a.num()) <= abs_int(b.num() - a.num())
        }),
{
    lemma_near();
    lemma_unit();
    let c = cut(a, b);
    let near = scalar(NEAR_Z);
    lemma_difference(b, a);
    lemma_difference(near, a);
    let whole = abs_int(b.num() - a.num());
    let part = abs_int(near.num() - a.num());
    assert(part <= whole && whole >= 1);
    lemma_nearest_monotone(part, 1, whole, 1);
    lemma_magnitude_increases(c.n.pattern(), c.d.pattern());
    lemma_nearest_monotone(1, 1, whole, 1);
    assert(magnitude(0) == 0 && magnitude(1) == 1);
    lemma_representable(1);
    lemma_magnitude_increases(0, c.d.pattern());
    lemma2_to64();
    assert(pow2(0) == 1);
    lemma_within_quotient(c.n, c.d, 0);
    lemma_product_shrinks(c.d, c.t);
}

/// No part of a cut exceeds the whole.
pub proof fn lemma_cut_sizes(a: Scalar, b: Scalar)
    requires
        is_split(a, b),
    ensures
        ({
            let d = b.sub_spec(a);
            let n = scalar(NEAR_Z).sub_spec(a);
            let t = n.div_spec(d);
            &&& n.is_finite_spec() && t.is_finite_spec() && d.is_finite_spec()
            &&& d.num() != 0
            &&& abs_int(n.num()) <= abs_int(d.num())
            &&& abs_int(t.num()) <= unit()
            &&& abs_int(scalar(NEAR_Z).num() - a.num()) <= abs_int(b.num() - a.num())
        }),
{
    lemma_cut_finite(a, b);
}

/// The part of the way at which an edge is cut, from 0 to 1.
pub proof fn lemma_cut_part(a: Scalar, b: Scalar)
    requires
        is_split(a, b),
    ensures
        scalar(NEAR_Z).sub_spec(a).div_spec(b.sub_spec(a)).within(0),
{
    lemma_cut_finite(a, b);
    lemma2_to64();
}

/// The way leads from the first end to the near plane, up to rounding.
proof fn lemma_cut_way(a: Scalar, b: Scalar)
    requires
        is_split(a, b),
    ensures
        ({
            let c = cut(a, b);
            abs_int(c.w.num() - c.n.num()) * PRECISION <= 3 * abs_int(c.d.num()) + TINY
        }),
{
    lemma_cut_finite(a, b);
    lemma_unit();
    let c = cut(a, b);
    lemma_quotient_error(c.n, c.d);
    lemma_product_error(c.d, c.t);
    let d = c.d.num();
    let n = c.n.num();
    let t = c.t.num();
    let w = c.w.num();
    let u = unit() as int;
    assert(d * t == t * d) by (nonlinear_arith);
    assert(abs_int(d * t) <= abs_int(d) * u) by (nonlinear_arith)
        requires
            abs_int(t) <= u,
            u > 0,
    ;
    assert(abs_int(n) * u <= abs_int(d) * u) by (nonlinear_arith)
        requires
            abs_int(n) <= abs_int(d),
            u > 0,
    ;
    assert(TINY <= u) by {
        lemma2_to64();
        lemma_pow2_adds(23, 126);
        lemma_pow2_pos(126);
        assert(pow2(149) >= pow2(23)) by (nonlinear_arith)
            requires
                pow2(149) == pow2(23) * pow2(126),
                pow2(126) >= 1,
        ;
    }
    assert(TINY * abs_int(d) <= abs_int(d) * u) by (nonlinear_arith)
        requires
            TINY <= u,
            abs_int(d) >= 0,
    ;
    let gap = abs_int(w - n) as int;
    assert(abs_int(w * u - n * u) == gap * u) by (nonlinear_arith)
        requires
            gap == abs_int(w - n),
            u > 0,
    ;
    let total = abs_int(d) * u;
    assert(gap * u * PRECISION <= 3 * total + TINY * u) by {
        assert(gap * u <= abs_int(w * u - d * t) + abs_int(t * d - n * u));
        assert(gap * u * PRECISION <= (abs_int(w * u - d * t) + abs_int(t * d - n * u)) * PRECISION)
            by (nonlinear_arith)
            requires
                gap * u <= abs_int(w * u - d * t) + abs_int(t * d - n * u),
        ;
    }
    assert(gap * PRECISION <= 3 * abs_int(d) + TINY) by (nonlinear_arith)
        requires
            gap * u * PRECISION <= 3 * (abs_int(d) * u) + TINY * u,
            u > 0,
    ;
}

/// A cut lies on the near plane, up to rounding: it is off by at most one part
/// in two to the 21 of the edge's depth and of one unit of length.
pub proof fn law_cuts_lie_on_the_near_plane(a: Point4, b: Point4)
    requires
        is_split(a.z, b.z),
    ensures
        crossing(a, b).z.is_finite_spec(),
        abs_int(crossing(a, b).z.num() - scalar(NEAR_Z).num()) * 0x20_0000 <= abs_int(
            b.z.num() - a.z.num(),
        ) + unit(),
{
    lemma_near();
    lemma_unit();
    lemma_cut_finite(a.z, b.z);
    lemma_cut_way(a.z, b.z);
    let c = cut(a.z, b.z);
    let near = scalar(NEAR_Z);
    let z = crossing(a, b).z;
    assert(z == a.z.add_spec(c.w));
    let whole = abs_int(b.z.num() - a.z.num()) as int;
    let d = abs_int(c.d.num()) as int;
    lemma_difference_error(b.z, a.z);
    lemma_difference_error(near, a.z);
    let off = abs_int(a.z.num() + c.w.num() - near.num()) as int;
    // how far the exact sum lies from the plane
    assert(off <= abs_int(c.w.num() - c.n.num()) + abs_int(
        c.n.num() - (near.num() - a.z.num()),
    ));
    assert(off * PRECISION <= 3 * d + whole + 2 * TINY);
    assert(d * PRECISION <= whole * (PRECISION + 1) + TINY);
    assert(TINY * 0x100_0000 <= unit()) by {
        lemma2_to64();
        lemma_pow2_adds(23, 24);
        lemma_pow2_adds(47, 102);
        lemma_pow2_pos(102);
        assert(pow2(149) >= pow2(47)) by (nonlinear_arith)
            requires
                pow2(149) == pow2(47) * pow2(102),
                pow2(102) >= 1,
        ;
    }
    let sum = abs_int(a.z.num() + c.w.num());
    // no overflow: the sum is smaller than the largest number
    let top = (INF_PATTERN - 1) as nat;
    lemma_one();
    lemma_magnitude_increases(ONE as nat, top);
    lemma_magnitude_increases(c.d.pattern(), top);
    lemma_representable(top);
    assert(2 * whole <= 3 * d + unit());
    assert(sum <= magnitude(top));
    lemma_nearest_monotone(sum, 1, magnitude(top), 1);
    lemma_sum(a.z, c.w);
    lemma_sum_error(a.z, c.w);
}

/// Difference in depth between the nearest and the farthest corner.
pub open spec fn depth_range(a: Point4, b: Point4, c: Point4) -> int {
    let ab = abs_int(a.z.num() - b.z.num()) as int;
    let bc = abs_int(b.z.num() - c.z.num()) as int;
    let ca = abs_int(c.z.num() - a.z.num()) as int;
    if ab >= bc && ab >= ca {
        ab
    } else if bc >= ca {
        bc
    } else {
        ca
    }
}

/// The depths of two corners and their difference are finite.
pub open spec fn is_measured(a: Point4, b: Point4) -> bool {
    a.z.is_finite_spec() && b.z.is_finite_spec() && a.z.sub_spec(b.z).is_finite_spec()
        && b.z.sub_spec(a.z).is_finite_spec()
}

/// The point lies at the near plane or beyond, up to rounding: it comes nearer
/// by at most one part in two to the 21 of a depth and of one unit of length.
pub open spec fn is_almost_ahead(p: Point4, depth: int) -> bool {
    p.z.is_finite_spec() && (p.z.num() - scalar(NEAR_Z).num()) * 0x20_0000 <= depth + unit()
}

proof fn lemma_edge_ahead(prev: Point4, cur: Point4, depth: int)
    requires
        is_measured(prev, cur),
        abs_int(cur.z.num() - prev.z.num()) <= depth,
    ensures
        forall|i: int|
            0 <= i < edge_part(prev, cur).len() ==> is_almost_ahead(
                #[trigger] edge_part(prev, cur)[i],
                depth,
            ),
{
    if prev.is_ahead() != cur.is_ahead() {
        law_cuts_lie_on_the_near_plane(prev, cur);
    }
}

/// Every corner of a clipped triangle lies at the near plane or beyond, up to
/// rounding, where the depths of the triangle's corners and their differences
/// do not overflow.
pub proof fn law_clipped_corners_lie_ahead(t: RawTri, view: Matrix, i: int)
    requires
        is_measured(seen(view, t.a), seen(view, t.b)),
        is_measured(seen(view, t.b), seen(view, t.c)),
        is_measured(seen(view, t.c), seen(view, t.a)),
        0 <= i < clipped(t, view).len(),
    ensures
        ({
            let depth = depth_range(seen(view, t.a), seen(view, t.b), seen(view, t.c));
            &&& is_almost_ahead(clipped(t, view)[i].a, depth)
            &&& is_almost_ahead(clipped(t, view)[i].b, depth)
            &&& is_almost_ahead(clipped(t, view)[i].c, depth)
        }),
{
    let a = seen(view, t.a);
    let b = seen(view, t.b);
    let c = seen(view, t.c);
    let depth = depth_range(a, b, c);
    lemma_edge_ahead(c, a, depth);
    lemma_edge_ahead(a, b, depth);
    lemma_edge_ahead(b, c, depth);
    let poly = outline(a, b, c);
    let first = edge_part(c, a);
    let second = edge_part(a, b);
    let third = edge_part(b, c);
    assert forall|k: int| 0 <= k < poly.len() implies is_almost_ahead(
        #[trigger] poly[k],
        depth,
    ) by {
        if k < first.len() {
            assert(poly[k] == first[k]);
        } else if k < first.len() + second.len() {
            assert(poly[k] == second[k - first.len()]);
        } else {
            assert(poly[k] == third[k - first.len() - second.len()]);
        }
    }
}

} // verus!
