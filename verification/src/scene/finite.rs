//! Bounded scenes give finite buffers.

use super::clip::{
    clipped, crossing, edge_part, fan, law_cuts_lie_on_the_near_plane, lemma_cut_part, lemma_near,
    outline, seen, Matrix, Point4, ViewTri, NEAR_Z,
};
use super::draw::{
    all_tris, buffer, city_tris, corner, depth_of, divided, drawn_after, every_tri, grid_pair,
    ground_tris, in_painter_order, law_far_before_near, pieces_in, projected, screen_tris,
    sorted_in, ScreenTri, ViewportView, GRID_LINES,
};
use super::shapes::{
    agent_faces, agent_tris, block_tris, box_tris, marker_tris, normal, path_tris, poly_tris,
    prop_tris, quad, ribbon, ring, shaded, wall_tris, zone_point, AgentMarker, GroundMarker,
    PathView, Point3, PolyView, PropBox, RawTri, WallSeg,
};
use super::{skyline, BlockView, Rgb};
use crate::scalar::arith::abs_int;
use crate::scalar::bounds::{
    lemma_product, lemma_product_error, lemma_product_minus_one, lemma_product_shrinks,
    lemma_root_exists, lemma_root_large, lemma_rounds_within, lemma_sum, lemma_sum_with_zero,
    lemma_within_neg, lemma_within_pattern, lemma_within_product, lemma_within_quotient,
    lemma_within_sum, lemma_within_weakens, TINY,
};
use crate::scalar::consts::{MICRO, ONE, TWO, ZERO};
use crate::scalar::convert::{lemma_representable, lemma_unit};
use crate::scalar::order::{
    lemma_nearest_monotone, lemma_one, lemma_two, lemma_zero_product, lemma_zero_sum,
};
use crate::scalar::round::{lemma_magnitude_increases, lemma_magnitude_split};
use crate::scalar::{magnitude, scalar, unit, Scalar, BINADE};
use crate::sim::agent::Position;
use vstd::arithmetic::power2::{lemma2_to64, lemma_pow2_adds, lemma_pow2_pos, pow2};
use vstd::prelude::*;

verus! {

impl Scalar {
    /// A coordinate or size of a bounded scene: at most 2048.
    pub open spec fn is_moderate(self) -> bool {
        self.within(11)
    }
}

impl Rgb {
    pub open spec fn is_finite(self) -> bool {
        self.r.is_finite_spec() && self.g.is_finite_spec() && self.b.is_finite_spec()
    }
}

impl Point3 {
    /// All coordinates are at most two to the power `k`.
    pub open spec fn within(self, k: nat) -> bool {
        self.x.within(k) && self.y.within(k) && self.z.within(k)
    }

    pub open spec fn is_finite(self) -> bool {
        self.x.is_finite_spec() && self.y.is_finite_spec() && self.z.is_finite_spec()
    }
}

impl Point4 {
    /// All coordinates are at most two to the power `k`.
    pub open spec fn within(self, k: nat) -> bool {
        self.x.within(k) && self.y.within(k) && self.z.within(k) && self.w.within(k)
    }
}

pub open spec fn is_moderate_spot(p: Position) -> bool {
    p.x.is_moderate() && p.z.is_moderate()
}

/// Everything in the scene lies within 2048 units of the origin and is no
/// larger than that, and the colours are finite.
pub open spec fn is_bounded_scene(input: ViewportView) -> bool {
    &&& forall|i: int|
        0 <= i < input.agents.len() ==> is_bounded_agent(#[trigger] input.agents[i])
    &&& forall|i: int|
        0 <= i < input.markers.len() ==> is_bounded_marker(#[trigger] input.markers[i])
    &&& forall|i: int| 0 <= i < input.paths.len() ==> is_bounded_path(#[trigger] input.paths[i])
    &&& forall|i: int| 0 <= i < input.polys.len() ==> is_bounded_poly(#[trigger] input.polys[i])
    &&& forall|i: int| 0 <= i < input.walls.len() ==> is_bounded_wall(#[trigger] input.walls[i])
    &&& forall|i: int| 0 <= i < input.props.len() ==> is_bounded_prop(#[trigger] input.props[i])
}

pub open spec fn is_bounded_agent(a: AgentMarker) -> bool {
    a.x.is_moderate() && a.z.is_moderate() && a.color.is_finite()
}

pub open spec fn is_bounded_marker(m: GroundMarker) -> bool {
    m.x.is_moderate() && m.z.is_moderate() && m.size.is_moderate() && m.color.is_finite()
}

pub open spec fn is_bounded_path(p: PathView) -> bool {
    &&& p.width.is_moderate()
    &&& p.color.is_finite()
    &&& forall|i: int| 0 <= i < p.points.len() ==> is_moderate_spot(#[trigger] p.points[i])
}

pub open spec fn is_bounded_poly(p: PolyView) -> bool {
    &&& p.color.is_finite()
    &&& forall|i: int| 0 <= i < p.points.len() ==> is_moderate_spot(#[trigger] p.points[i])
}

pub open spec fn is_bounded_wall(w: WallSeg) -> bool {
    w.ax.is_moderate() && w.az.is_moderate() && w.bx.is_moderate() && w.bz.is_moderate()
        && w.height.is_moderate() && w.color.is_finite()
}

pub open spec fn is_bounded_prop(p: PropBox) -> bool {
    p.cx.is_moderate() && p.cz.is_moderate() && p.w.is_moderate() && p.h.is_moderate()
        && p.d.is_moderate() && p.color.is_finite()
}

/// The view matrix turns, enlarging each axis to twice its size at most, and
/// moves by at most 16384 units.
pub open spec fn is_bounded_view(view: Matrix) -> bool {
    view.x.within(1) && view.y.within(1) && view.z.within(1) && view.w.within(14)
}

/// The projection divides by the distance along the view, and its entries are
/// at most two to the 20.
pub open spec fn is_perspective(proj: Matrix) -> bool {
    &&& proj.x.within(20) && proj.y.within(20) && proj.z.within(20) && proj.w.within(20)
    &&& proj.x.w.is_zero_spec() && proj.y.w.is_zero_spec() && proj.w.w.is_zero_spec()
    &&& proj.z.w == scalar(0xbf80_0000 /* -1 */)
}

/// A triangle whose corners are at most 8192 units away, of a finite colour.
spec fn is_tame(t: RawTri) -> bool {
    t.a.within(13) && t.b.within(13) && t.c.within(13) && t.color.is_finite()
}

spec fn all_tame(s: Seq<RawTri>) -> bool {
    forall|i: int| 0 <= i < s.len() ==> is_tame(#[trigger] s[i])
}

proof fn lemma_tame_join(s: Seq<RawTri>, t: Seq<RawTri>)
    requires
        all_tame(s),
        all_tame(t),
    ensures
        all_tame(s + t),
{
    let r = s + t;
    assert forall|i: int| 0 <= i < r.len() implies is_tame(#[trigger] r[i]) by {
        if i < s.len() {
            assert(r[i] == s[i]);
        } else {
            assert(r[i] == t[i - s.len()]);
        }
    }
}

proof fn lemma_all_tame<A>(items: Seq<A>, tris: spec_fn(A) -> Seq<RawTri>, k: int)
    requires
        0 <= k <= items.len(),
        forall|i: int| 0 <= i < items.len() ==> all_tame(tris(#[trigger] items[i])),
    ensures
        all_tame(all_tris(items, tris, k)),
    decreases k,
{
    if k > 0 {
        lemma_all_tame(items, tris, k - 1);
        assert(all_tame(tris(items[k - 1])));
        lemma_tame_join(all_tris(items, tris, k - 1), tris(items[k - 1]));
    }
}

/// A constant of size at most 2048.
proof fn lemma_moderate(bits: u32)
    requires
        scalar(bits).pattern() <= 0x4500_0000,
    ensures
        scalar(bits).is_moderate(),
{
    lemma_within_pattern(scalar(bits), 11);
}

/// A sum or difference of coordinates stays in the bounds of a corner.
proof fn lemma_offset(a: Scalar, b: Scalar)
    requires
        a.within(11),
        b.within(12),
    ensures
        a.add_spec(b).within(13),
        a.sub_spec(b).within(13),
{
    lemma_within_weakens(a, 11, 12);
    lemma_within_sum(a, b, 12);
}

proof fn lemma_half(a: Scalar)
    requires
        a.within(11),
    ensures
        a.div_spec(scalar(TWO)).within(11),
        a.div_spec(scalar(TWO)).within(12),
{
    lemma_two();
    lemma_unit();
    let m = pow2(11) * unit();
    assert(scalar(TWO).num() == 2 * unit());
    assert(abs_int(a.num()) <= pow2(11) * abs_int(scalar(TWO).num())) by (nonlinear_arith)
        requires
            abs_int(a.num()) <= pow2(11) * unit(),
            scalar(TWO).num() == 2 * unit(),
    ;
    lemma_within_quotient(a, scalar(TWO), 11);
    lemma_within_weakens(a.div_spec(scalar(TWO)), 11, 12);
}

proof fn lemma_shaded(c: Rgb, shade: Scalar)
    requires
        c.is_finite(),
        shade.pattern() <= ONE,
    ensures
        shaded(c, shade).is_finite(),
{
    lemma2_to64();
    assert((127 + 0) * BINADE == ONE);
    lemma_within_pattern(shade, 0);
    lemma_product_shrinks(c.r, shade);
    lemma_product_shrinks(c.g, shade);
    lemma_product_shrinks(c.b, shade);
}

proof fn lemma_quad(
    a: Point3,
    b: Point3,
    c: Point3,
    d: Point3,
    color: Rgb,
    shade: Scalar,
    layer: u8,
)
    requires
        a.within(13),
        b.within(13),
        c.within(13),
        d.within(13),
        color.is_finite(),
        shade.pattern() <= ONE,
    ensures
        all_tame(quad(a, b, c, d, color, shade, layer)),
{
    lemma_shaded(color, shade);
}

proof fn lemma_box(cx: Scalar, cz: Scalar, w: Scalar, h: Scalar, d: Scalar, c: Rgb)
    requires
        cx.is_moderate(),
        cz.is_moderate(),
        w.is_moderate(),
        h.is_moderate(),
        d.is_moderate(),
        c.is_finite(),
    ensures
        all_tame(box_tris(cx, cz, w, h, d, c)),
{
    let x0 = cx.sub_spec(w.div_spec(scalar(TWO)));
    let x1 = cx.add_spec(w.div_spec(scalar(TWO)));
    let z0 = cz.sub_spec(d.div_spec(scalar(TWO)));
    let z1 = cz.add_spec(d.div_spec(scalar(TWO)));
    let o = scalar(ZERO);
    lemma_half(w);
    lemma_half(d);
    lemma_offset(cx, w.div_spec(scalar(TWO)));
    lemma_offset(cz, d.div_spec(scalar(TWO)));
    lemma_moderate(ZERO);
    lemma_within_weakens(o, 11, 13);
    lemma_within_weakens(h, 11, 13);
    let p = |x: Scalar, y: Scalar, z: Scalar| Point3 { x, y, z };
    let s = super::shapes::LAYER_SOLID;
    let q1 = quad(p(x0, h, z0), p(x0, h, z1), p(x1, h, z1), p(x1, h, z0), c, scalar(ONE), s);
    let q2 = quad(p(x1, o, z0), p(x1, o, z1), p(x1, h, z1), p(x1, h, z0), c, scalar(0x3f51_eb85), s);
    let q3 = quad(p(x0, o, z1), p(x0, o, z0), p(x0, h, z0), p(x0, h, z1), c, scalar(0x3f38_51ec), s);
    let q4 = quad(p(x1, o, z1), p(x0, o, z1), p(x0, h, z1), p(x1, h, z1), c, scalar(0x3f61_47ae), s);
    let q5 = quad(p(x0, o, z0), p(x1, o, z0), p(x1, h, z0), p(x0, h, z0), c, scalar(0x3f28_f5c3), s);
    lemma_quad(p(x0, h, z0), p(x0, h, z1), p(x1, h, z1), p(x1, h, z0), c, scalar(ONE), s);
    lemma_quad(p(x1, o, z0), p(x1, o, z1), p(x1, h, z1), p(x1, h, z0), c, scalar(0x3f51_eb85), s);
    lemma_quad(p(x0, o, z1), p(x0, o, z0), p(x0, h, z0), p(x0, h, z1), c, scalar(0x3f38_51ec), s);
    lemma_quad(p(x1, o, z1), p(x0, o, z1), p(x0, h, z1), p(x1, h, z1), c, scalar(0x3f61_47ae), s);
    lemma_quad(p(x0, o, z0), p(x1, o, z0), p(x1, h, z0), p(x0, h, z0), c, scalar(0x3f28_f5c3), s);
    lemma_tame_join(q1, q2);
    lemma_tame_join(q1 + q2, q3);
    lemma_tame_join(q1 + q2 + q3, q4);
    lemma_tame_join(q1 + q2 + q3 + q4, q5);
    assert(box_tris(cx, cz, w, h, d, c) == q1 + q2 + q3 + q4 + q5);
}

proof fn lemma_agent(a: AgentMarker)
    requires
        is_bounded_agent(a),
    ensures
        all_tame(agent_tris(a)),
{
    let r = scalar(0x3f66_6666);
    lemma_within_pattern(r, 12);
    lemma_offset(a.x, r);
    lemma_offset(a.z, r);
    lemma_within_weakens(a.x, 11, 13);
    lemma_within_weakens(a.z, 11, 13);
    lemma_within_pattern(scalar(0x3f99_999a), 13);
    lemma_within_pattern(scalar(0x4006_6666), 13);
    lemma_within_pattern(scalar(0x3e99_999a), 13);
    lemma_shaded(a.color, scalar(0x3f33_3333));
    assert forall|i: int| 0 <= i <= 4 implies (#[trigger] ring(a, i)).within(13) by {}
    assert forall|i: int| 0 <= i < 4 implies all_tame(#[trigger] agent_faces(a, i)) by {
        assert(ring(a, i).within(13) && ring(a, i + 1).within(13));
    }
    lemma_tame_join(agent_faces(a, 0), agent_faces(a, 1));
    lemma_tame_join(agent_faces(a, 0) + agent_faces(a, 1), agent_faces(a, 2));
    lemma_tame_join(
        agent_faces(a, 0) + agent_faces(a, 1) + agent_faces(a, 2),
        agent_faces(a, 3),
    );
}

proof fn lemma_marker(m: GroundMarker)
    requires
        is_bounded_marker(m),
    ensures
        all_tame(marker_tris(m)),
{
    let s = m.size;
    let y = scalar(0x3d75_c28f);
    lemma_within_weakens(s, 11, 12);
    lemma_offset(m.x, s);
    lemma_offset(m.z, s);
    lemma_within_weakens(m.x, 11, 13);
    lemma_within_weakens(m.z, 11, 13);
    lemma_within_pattern(y, 13);
    lemma_quad(
        Point3 { x: m.x.sub_spec(s), y, z: m.z },
        Point3 { x: m.x, y, z: m.z.add_spec(s) },
        Point3 { x: m.x.add_spec(s), y, z: m.z },
        Point3 { x: m.x, y, z: m.z.sub_spec(s) },
        m.color,
        scalar(ONE),
        super::shapes::LAYER_MARKER,
    );
}

/// The smallest length of a segment, in units of two to the minus 149.
pub proof fn lemma_micro()
    ensures
        scalar(MICRO).is_finite_spec(),
        scalar(MICRO).num() >= pow2(129),
{
    lemma_magnitude_split(106, BINADE as nat);
    lemma_magnitude_increases((107 * BINADE) as nat, MICRO as nat);
    lemma2_to64();
    lemma_pow2_adds(23, 106);
    assert(106 * BINADE + BINADE == 107 * BINADE);
}

/// A side of a right triangle is at most twice as long as the side across,
/// whatever rounding does.
proof fn lemma_side(d: Scalar, sum: Scalar)
    requires
        d.within(12),
        sum.within(25),
        sum.num() >= d.mul_spec(d).num(),
        sum.num() >= 0,
    ensures
        ({
            let len = sum.sqrt_spec().max_spec(scalar(MICRO));
            &&& len.is_finite_spec()
            &&& len.num() >= pow2(129)
            &&& abs_int(d.num()) <= 2 * len.num()
        }),
{
    reveal(Scalar::sqrt_spec);
    lemma_micro();
    lemma_unit();
    lemma2_to64();
    let root = sum.sqrt_spec();
    let len = root.max_spec(scalar(MICRO));
    let u = unit() as int;
    let v = abs_int(d.num()) as int;
    let micro = scalar(MICRO).num();
    let n = magnitude(sum.pattern()) * unit();
    lemma_pow2_pos(129);
    assert(magnitude(0) == 0);
    if sum.num() != 0 {
        lemma_pow2_adds(25, 35);
        lemma_pow2_pos(35);
        lemma_pow2_pos(25);
        assert(n <= pow2(60) * unit() * unit()) by (nonlinear_arith)
            requires
                n == magnitude(sum.pattern()) * unit(),
                magnitude(sum.pattern()) <= pow2(25) * unit(),
                pow2(60) == pow2(25) * pow2(35),
                pow2(35) >= 1,
        ;
        lemma_root_exists(n);
    } else {
        crate::scalar::order::lemma_zero_pattern(sum);
    }
    if v > 2 * micro {
        lemma_within_product(d, d, 12, 12);
        lemma_product_error(d, d);
        let sq = d.mul_spec(d).num();
        let vv = v * v;
        assert(d.num() * d.num() == vv) by (nonlinear_arith)
            requires
                vv == v * v,
                v == d.num() || v == -d.num(),
        ;
        assert(vv >= TINY * u) by {
            lemma_pow2_adds(23, 149);
            lemma_pow2_adds(129, 129);
            lemma_pow2_adds(172, 86);
            lemma_pow2_pos(86);
            assert(pow2(258) >= pow2(172)) by (nonlinear_arith)
                requires
                    pow2(258) == pow2(172) * pow2(86),
                    pow2(86) >= 1,
            ;
            let w = pow2(129) as int;
            assert(vv >= w * w) by (nonlinear_arith)
                requires
                    vv == v * v,
                    v >= w,
                    w >= 0,
            ;
        }
        assert(2 * (sq * u) >= vv);
        assert(sq > 0) by (nonlinear_arith)
            requires
                2 * (sq * u) >= vv,
                vv >= TINY * u,
                u > 0,
        ;
        assert(n >= sq * u) by (nonlinear_arith)
            requires
                n == magnitude(sum.pattern()) * unit(),
                magnitude(sum.pattern()) == sum.num(),
                sum.num() >= sq,
                u == unit(),
                u > 0,
        ;
        assert(v >= 16) by {
            lemma_pow2_adds(4, 125);
            lemma_pow2_pos(125);
        }
        lemma_root_large(n, v as nat);
    }
}

/// The sides of a right triangle between two points of a bounded scene.
pub proof fn lemma_sides(a: Position, b: Position)
    requires
        is_moderate_spot(a),
        is_moderate_spot(b),
    ensures
        ({
            let dx = b.x.sub_spec(a.x);
            let dz = b.z.sub_spec(a.z);
            let sum = dx.mul_spec(dx).add_spec(dz.mul_spec(dz));
            let len = sum.sqrt_spec().max_spec(scalar(MICRO));
            &&& dx.within(12) && dz.within(12) && sum.within(25) && sum.num() >= 0
            &&& len.is_finite_spec() && len.num() >= pow2(129)
            &&& abs_int(dx.num()) <= 2 * len.num()
            &&& abs_int(dz.num()) <= 2 * len.num()
        }),
{
    let dx = b.x.sub_spec(a.x);
    let dz = b.z.sub_spec(a.z);
    lemma_within_sum(b.x, a.x, 11);
    lemma_within_sum(b.z, a.z, 11);
    let sx = dx.mul_spec(dx);
    let sz = dz.mul_spec(dz);
    lemma_within_product(dx, dx, 12, 12);
    lemma_within_product(dz, dz, 12, 12);
    lemma_product(dx, dx);
    lemma_product(dz, dz);
    assert(dx.num() * dx.num() >= 0 && dz.num() * dz.num() >= 0) by (nonlinear_arith);
    let sum = sx.add_spec(sz);
    lemma_within_sum(sx, sz, 24);
    lemma_sum(sx, sz);
    let total = abs_int(sx.num() + sz.num());
    lemma_nearest_monotone(abs_int(sx.num()), 1, total, 1);
    lemma_nearest_monotone(abs_int(sz.num()), 1, total, 1);
    lemma_representable(sx.pattern());
    lemma_representable(sz.pattern());
    lemma_magnitude_increases(sx.pattern(), sum.pattern());
    lemma_magnitude_increases(sz.pattern(), sum.pattern());
    lemma_side(dx, sum);
    lemma_side(dz, sum);
}

/// The sideways offset of a strip is no longer than its width allows.
proof fn lemma_normal(a: Position, b: Position, half: Scalar)
    requires
        is_moderate_spot(a),
        is_moderate_spot(b),
        half.within(11),
    ensures
        normal(a, b, half).x.within(12),
        normal(a, b, half).z.within(12),
{
    let dx = b.x.sub_spec(a.x);
    let dz = b.z.sub_spec(a.z);
    lemma_sides(a, b);
    let sum = dx.mul_spec(dx).add_spec(dz.mul_spec(dz));
    let len = sum.sqrt_spec().max_spec(scalar(MICRO));
    lemma_pow2_pos(129);
    lemma2_to64();
    assert(pow2(1) == 2);
    lemma_within_neg(dz, 12);
    lemma_within_quotient(dz.neg_spec(), len, 1);
    lemma_within_quotient(dx, len, 1);
    lemma_within_product(dz.neg_spec().div_spec(len), half, 1, 11);
    lemma_within_product(dx.div_spec(len), half, 1, 11);
}

/// The ends of a strip, moved sideways.
proof fn lemma_strip(a: Position, b: Position, half: Scalar)
    requires
        is_moderate_spot(a),
        is_moderate_spot(b),
        half.within(11),
    ensures
        ({
            let n = normal(a, b, half);
            &&& a.x.add_spec(n.x).within(13) && a.x.sub_spec(n.x).within(13)
            &&& a.z.add_spec(n.z).within(13) && a.z.sub_spec(n.z).within(13)
            &&& b.x.add_spec(n.x).within(13) && b.x.sub_spec(n.x).within(13)
            &&& b.z.add_spec(n.z).within(13) && b.z.sub_spec(n.z).within(13)
        }),
{
    let n = normal(a, b, half);
    lemma_normal(a, b, half);
    lemma_offset(a.x, n.x);
    lemma_offset(a.z, n.z);
    lemma_offset(b.x, n.x);
    lemma_offset(b.z, n.z);
}

proof fn lemma_ribbon(a: Position, b: Position, width: Scalar, color: Rgb)
    requires
        is_moderate_spot(a),
        is_moderate_spot(b),
        width.is_moderate(),
        color.is_finite(),
    ensures
        all_tame(ribbon(a, b, width, color)),
{
    let half = width.div_spec(scalar(TWO));
    lemma_half(width);
    lemma_strip(a, b, half);
    let n = normal(a, b, half);
    let y = scalar(0x3db8_51ec);
    lemma_within_pattern(y, 13);
    lemma_quad(
        Point3 { x: a.x.sub_spec(n.x), y, z: a.z.sub_spec(n.z) },
        Point3 { x: a.x.add_spec(n.x), y, z: a.z.add_spec(n.z) },
        Point3 { x: b.x.add_spec(n.x), y, z: b.z.add_spec(n.z) },
        Point3 { x: b.x.sub_spec(n.x), y, z: b.z.sub_spec(n.z) },
        color,
        scalar(ONE),
        super::shapes::LAYER_PATH,
    );
}

proof fn lemma_path(p: PathView, k: int)
    requires
        is_bounded_path(p),
        k < p.points.len(),
    ensures
        all_tame(path_tris(p, k)),
    decreases k,
{
    if k > 0 {
        lemma_path(p, k - 1);
        assert(is_moderate_spot(p.points[k - 1]) && is_moderate_spot(p.points[k]));
        lemma_ribbon(p.points[k - 1], p.points[k], p.width, p.color);
        lemma_tame_join(
            path_tris(p, k - 1),
            ribbon(p.points[k - 1], p.points[k], p.width, p.color),
        );
    }
}

proof fn lemma_zone_point(p: Position)
    requires
        is_moderate_spot(p),
    ensures
        zone_point(p).within(13),
{
    lemma_within_weakens(p.x, 11, 13);
    lemma_within_weakens(p.z, 11, 13);
    lemma_within_pattern(scalar(0x3d8f_5c29), 13);
}

proof fn lemma_poly(p: PolyView, k: int)
    requires
        is_bounded_poly(p),
        k < p.points.len() - 1,
    ensures
        all_tame(poly_tris(p, k)),
    decreases k,
{
    if k > 0 {
        lemma_poly(p, k - 1);
        assert(is_moderate_spot(p.points[0]));
        assert(is_moderate_spot(p.points[k]) && is_moderate_spot(p.points[k + 1]));
        lemma_zone_point(p.points[0]);
        lemma_zone_point(p.points[k]);
        lemma_zone_point(p.points[k + 1]);
    }
}

proof fn lemma_wall(w: WallSeg)
    requires
        is_bounded_wall(w),
    ensures
        all_tame(wall_tris(w)),
{
    let a = Position { x: w.ax, z: w.az };
    let b = Position { x: w.bx, z: w.bz };
    let half = scalar(0x3e4c_cccd);
    lemma_within_pattern(half, 11);
    lemma_strip(a, b, half);
    let n = normal(a, b, half);
    let h = w.height;
    let o = scalar(ZERO);
    lemma_moderate(ZERO);
    lemma_within_weakens(o, 11, 13);
    lemma_within_weakens(h, 11, 13);
    let left = |p: Position, y: Scalar|
        Point3 { x: p.x.add_spec(n.x), y, z: p.z.add_spec(n.z) };
    let right = |p: Position, y: Scalar|
        Point3 { x: p.x.sub_spec(n.x), y, z: p.z.sub_spec(n.z) };
    let s = super::shapes::LAYER_SOLID;
    let c = w.color;
    let q1 = quad(left(a, o), left(b, o), left(b, h), left(a, h), c, scalar(0x3f51_eb85), s);
    let q2 = quad(right(b, o), right(a, o), right(a, h), right(b, h), c, scalar(0x3f28_f5c3), s);
    let q3 = quad(right(a, h), left(a, h), left(b, h), right(b, h), c, scalar(ONE), s);
    lemma_quad(left(a, o), left(b, o), left(b, h), left(a, h), c, scalar(0x3f51_eb85), s);
    lemma_quad(right(b, o), right(a, o), right(a, h), right(b, h), c, scalar(0x3f28_f5c3), s);
    lemma_quad(right(a, h), left(a, h), left(b, h), right(b, h), c, scalar(ONE), s);
    lemma_tame_join(q1, q2);
    lemma_tame_join(q1 + q2, q3);
    assert(wall_tris(w) == q1 + q2 + q3);
}

proof fn lemma_ground()
    ensures
        all_tame(ground_tris()),
{
    let lo = scalar(super::draw::GROUND_EDGE);
    let hi = scalar(super::draw::GROUND_HALF);
    let o = scalar(ZERO);
    lemma_within_pattern(lo, 13);
    lemma_within_pattern(hi, 13);
    lemma_within_pattern(o, 13);
    lemma_quad(
        Point3 { x: lo, y: o, z: lo },
        Point3 { x: lo, y: o, z: hi },
        Point3 { x: hi, y: o, z: hi },
        Point3 { x: hi, y: o, z: lo },
        super::draw::grass(),
        scalar(ONE),
        super::shapes::LAYER_GROUND,
    );
}

proof fn lemma_grid(i: int)
    requires
        0 <= i < GRID_LINES,
    ensures
        all_tame(grid_pair(i)),
{
    reveal(Scalar::from_int_spec);
    let x = super::draw::GRID_STEP * i - super::draw::GRID_HALF;
    let k = Scalar::from_int_spec(x);
    let t = scalar(0x3e00_0000);
    let y = scalar(0x3ca3_d70a);
    let lo = scalar(super::draw::GROUND_EDGE);
    let hi = scalar(super::draw::GROUND_HALF);
    lemma2_to64();
    lemma_unit();
    assert(pow2(11) == 2048);
    assert(abs_int(x) * unit() <= pow2(11) * unit() * 1) by (nonlinear_arith)
        requires
            abs_int(x) <= 2048,
            pow2(11) == 2048,
    ;
    lemma_rounds_within(abs_int(x) * unit(), 1, 11);
    lemma_within_pattern(t, 12);
    lemma_offset(k, t);
    lemma_within_pattern(y, 13);
    lemma_within_pattern(lo, 13);
    lemma_within_pattern(hi, 13);
    let l = k.sub_spec(t);
    let r = k.add_spec(t);
    let p = |x: Scalar, z: Scalar| Point3 { x, y, z };
    let c = super::draw::grid_line();
    let layer = super::shapes::LAYER_GRID;
    let q1 = quad(p(l, lo), p(l, hi), p(r, hi), p(r, lo), c, scalar(ONE), layer);
    let q2 = quad(p(lo, l), p(lo, r), p(hi, r), p(hi, l), c, scalar(ONE), layer);
    lemma_quad(p(l, lo), p(l, hi), p(r, hi), p(r, lo), c, scalar(ONE), layer);
    lemma_quad(p(lo, l), p(lo, r), p(hi, r), p(hi, l), c, scalar(ONE), layer);
    lemma_tame_join(q1, q2);
    assert(grid_pair(i) == q1 + q2);
}

/// Numbers of a block are small, by their patterns.
spec fn is_small_block(b: BlockView) -> bool {
    &&& b.cx.pattern() <= 0x4500_0000 && b.cz.pattern() <= 0x4500_0000
    &&& b.w.pattern() <= 0x4500_0000 && b.h.pattern() <= 0x4500_0000
    &&& b.d.pattern() <= 0x4500_0000
    &&& b.color.is_finite()
}

proof fn lemma_block(i: int)
    requires
        0 <= i < skyline().len(),
    ensures
        all_tame(block_tris(skyline()[i])),
{
    let b = skyline()[i];
    assert(is_small_block(b)) by {
        assert(skyline().len() == 7);
        if i == 0 {
        } else if i == 1 {
        } else if i == 2 {
        } else if i == 3 {
        } else if i == 4 {
        } else if i == 5 {
        }
    }
    lemma_within_pattern(b.cx, 11);
    lemma_within_pattern(b.cz, 11);
    lemma_within_pattern(b.w, 11);
    lemma_within_pattern(b.h, 11);
    lemma_within_pattern(b.d, 11);
    lemma_box(b.cx, b.cz, b.w, b.h, b.d, b.color);
}

/// The triangles of a bounded scene are tame.
proof fn lemma_city(input: ViewportView)
    requires
        is_bounded_scene(input),
    ensures
        all_tame(city_tris(input)),
{
    let steps = Seq::new(GRID_LINES as nat, |i: int| i);
    let fg = |i: int| grid_pair(i);
    assert forall|i: int| 0 <= i < steps.len() implies all_tame(fg(#[trigger] steps[i])) by {
        lemma_grid(i);
    }
    lemma_all_tame(steps, fg, steps.len() as int);
    let fb = |b: BlockView| block_tris(b);
    assert forall|i: int| 0 <= i < skyline().len() implies all_tame(
        fb(#[trigger] skyline()[i]),
    ) by {
        lemma_block(i);
    }
    lemma_all_tame(skyline(), fb, skyline().len() as int);
    let fa = |a: AgentMarker| agent_tris(a);
    assert forall|i: int| 0 <= i < input.agents.len() implies all_tame(
        fa(#[trigger] input.agents[i]),
    ) by {
        lemma_agent(input.agents[i]);
    }
    lemma_all_tame(input.agents, fa, input.agents.len() as int);
    let fm = |m: GroundMarker| marker_tris(m);
    assert forall|i: int| 0 <= i < input.markers.len() implies all_tame(
        fm(#[trigger] input.markers[i]),
    ) by {
        lemma_marker(input.markers[i]);
    }
    lemma_all_tame(input.markers, fm, input.markers.len() as int);
    let fp = |p: PathView| path_tris(p, p.points.len() - 1);
    assert forall|i: int| 0 <= i < input.paths.len() implies all_tame(
        fp(#[trigger] input.paths[i]),
    ) by {
        lemma_path(input.paths[i], input.paths[i].points.len() - 1);
    }
    lemma_all_tame(input.paths, fp, input.paths.len() as int);
    let fz = |p: PolyView| poly_tris(p, p.points.len() - 2);
    assert forall|i: int| 0 <= i < input.polys.len() implies all_tame(
        fz(#[trigger] input.polys[i]),
    ) by {
        lemma_poly(input.polys[i], input.polys[i].points.len() - 2);
    }
    lemma_all_tame(input.polys, fz, input.polys.len() as int);
    let fw = |w: WallSeg| wall_tris(w);
    assert forall|i: int| 0 <= i < input.walls.len() implies all_tame(
        fw(#[trigger] input.walls[i]),
    ) by {
        lemma_wall(input.walls[i]);
    }
    lemma_all_tame(input.walls, fw, input.walls.len() as int);
    let fo = |p: PropBox| prop_tris(p);
    assert forall|i: int| 0 <= i < input.props.len() implies all_tame(
        fo(#[trigger] input.props[i]),
    ) by {
        let p = input.props[i];
        lemma_box(p.cx, p.cz, p.w, p.h, p.d, p.color);
    }
    lemma_all_tame(input.props, fo, input.props.len() as int);
    lemma_ground();
    let s1 = ground_tris() + every_tri(steps, fg);
    lemma_tame_join(ground_tris(), every_tri(steps, fg));
    let s2 = s1 + every_tri(skyline(), fb);
    lemma_tame_join(s1, every_tri(skyline(), fb));
    let s3 = s2 + every_tri(input.agents, fa);
    lemma_tame_join(s2, every_tri(input.agents, fa));
    let s4 = s3 + every_tri(input.markers, fm);
    lemma_tame_join(s3, every_tri(input.markers, fm));
    let s5 = s4 + every_tri(input.paths, fp);
    lemma_tame_join(s4, every_tri(input.paths, fp));
    let s6 = s5 + every_tri(input.polys, fz);
    lemma_tame_join(s5, every_tri(input.polys, fz));
    let s7 = s6 + every_tri(input.walls, fw);
    lemma_tame_join(s6, every_tri(input.walls, fw));
    lemma_tame_join(s7, every_tri(input.props, fo));
    assert(city_tris(input) == s7 + every_tri(input.props, fo));
}

/// Four numbers summed from the first to the last.
proof fn lemma_sum4(a: Scalar, b: Scalar, c: Scalar, d: Scalar, k: nat)
    requires
        a.within(k),
        b.within(k),
        c.within(k),
        d.within(k),
        k + 3 <= 100,
    ensures
        a.add_spec(b).add_spec(c).add_spec(d).within(k + 3),
{
    lemma_within_sum(a, b, k);
    lemma_within_weakens(c, k, k + 1);
    lemma_within_sum(a.add_spec(b), c, k + 1);
    lemma_within_weakens(d, k, k + 2);
    lemma_within_sum(a.add_spec(b).add_spec(c), d, k + 2);
}

proof fn lemma_scaled_within(p: Point4, s: Scalar, j: nat, k: nat)
    requires
        p.within(j),
        s.within(k),
        j + k <= 100,
    ensures
        p.scaled(s).within(j + k),
{
    lemma_within_product(p.x, s, j, k);
    lemma_within_product(p.y, s, j, k);
    lemma_within_product(p.z, s, j, k);
    lemma_within_product(p.w, s, j, k);
}

proof fn lemma_point_weakens(p: Point4, j: nat, k: nat)
    requires
        p.within(j),
        j <= k,
    ensures
        p.within(k),
{
    lemma_within_weakens(p.x, j, k);
    lemma_within_weakens(p.y, j, k);
    lemma_within_weakens(p.z, j, k);
    lemma_within_weakens(p.w, j, k);
}

proof fn lemma_points4(a: Point4, b: Point4, c: Point4, d: Point4, k: nat)
    requires
        a.within(k),
        b.within(k),
        c.within(k),
        d.within(k),
        k + 3 <= 100,
    ensures
        a.plus(b).plus(c).plus(d).within(k + 3),
{
    lemma_sum4(a.x, b.x, c.x, d.x, k);
    lemma_sum4(a.y, b.y, c.y, d.y, k);
    lemma_sum4(a.z, b.z, c.z, d.z, k);
    lemma_sum4(a.w, b.w, c.w, d.w, k);
}

proof fn lemma_seen(view: Matrix, p: Point3)
    requires
        is_bounded_view(view),
        p.within(13),
    ensures
        seen(view, p).within(17),
{
    lemma2_to64();
    assert((127 + 0) * BINADE == ONE);
    lemma_within_pattern(scalar(ONE), 0);
    lemma_scaled_within(view.x, p.x, 1, 13);
    lemma_scaled_within(view.y, p.y, 1, 13);
    lemma_scaled_within(view.z, p.z, 1, 13);
    lemma_scaled_within(view.w, scalar(ONE), 14, 0);
    lemma_points4(
        view.x.scaled(p.x),
        view.y.scaled(p.y),
        view.z.scaled(p.z),
        view.w.scaled(scalar(ONE)),
        14,
    );
}

/// A corner that can be projected: not far away, and at least a quarter of a
/// unit ahead.
spec fn is_ready(p: Point4) -> bool {
    p.within(19) && -4 * p.z.num() >= unit()
}

proof fn lemma_crossing_ready(a: Point4, b: Point4)
    requires
        a.within(17),
        b.within(17),
        a.is_ahead() != b.is_ahead(),
    ensures
        is_ready(crossing(a, b)),
{
    lemma_near();
    lemma_unit();
    lemma_within_sum(b.x, a.x, 17);
    lemma_within_sum(b.y, a.y, 17);
    lemma_within_sum(b.z, a.z, 17);
    lemma_within_sum(b.w, a.w, 17);
    lemma_cut_part(a.z, b.z);
    let t = scalar(NEAR_Z).sub_spec(a.z).div_spec(b.z.sub_spec(a.z));
    let d = b.minus(a);
    lemma_scaled_within(d, t, 18, 0);
    let w = d.scaled(t);
    lemma_point_weakens(a, 17, 18);
    lemma_within_sum(a.x, w.x, 18);
    lemma_within_sum(a.y, w.y, 18);
    lemma_within_sum(a.z, w.z, 18);
    lemma_within_sum(a.w, w.w, 18);
    law_cuts_lie_on_the_near_plane(a, b);
    lemma2_to64();
    assert(pow2(17) == 0x2_0000);
}

proof fn lemma_edge_ready(prev: Point4, cur: Point4)
    requires
        prev.within(17),
        cur.within(17),
    ensures
        forall|i: int|
            0 <= i < edge_part(prev, cur).len() ==> is_ready(#[trigger] edge_part(prev, cur)[i]),
{
    lemma_near();
    lemma_point_weakens(cur, 17, 19);
    if prev.is_ahead() != cur.is_ahead() {
        lemma_crossing_ready(prev, cur);
    }
}

proof fn lemma_pieces_ready(t: RawTri, view: Matrix)
    requires
        is_bounded_view(view),
        is_tame(t),
    ensures
        forall|i: int|
            0 <= i < clipped(t, view).len() ==> is_ready((#[trigger] clipped(t, view)[i]).a)
                && is_ready(clipped(t, view)[i].b) && is_ready(clipped(t, view)[i].c),
{
    let a = seen(view, t.a);
    let b = seen(view, t.b);
    let c = seen(view, t.c);
    lemma_seen(view, t.a);
    lemma_seen(view, t.b);
    lemma_seen(view, t.c);
    lemma_edge_ready(c, a);
    lemma_edge_ready(a, b);
    lemma_edge_ready(b, c);
    let poly = outline(a, b, c);
    let first = edge_part(c, a);
    let second = edge_part(a, b);
    let third = edge_part(b, c);
    assert forall|k: int| 0 <= k < poly.len() implies is_ready(#[trigger] poly[k]) by {
        if k < first.len() {
            assert(poly[k] == first[k]);
        } else if k < first.len() + second.len() {
            assert(poly[k] == second[k - first.len()]);
        } else {
            assert(poly[k] == third[k - first.len() - second.len()]);
        }
    }
    let pieces = fan(poly);
    assert forall|i: int| 0 <= i < pieces.len() implies is_ready((#[trigger] pieces[i]).a)
        && is_ready(pieces[i].b) && is_ready(pieces[i].c) by {
        assert(is_ready(poly[0]) && is_ready(poly[i + 1]) && is_ready(poly[i + 2]));
    }
}

/// A ready corner projects to a finite point before the eye.
proof fn lemma_corner_finite(p: Point4, proj: Matrix)
    requires
        is_ready(p),
        is_perspective(proj),
    ensures
        !proj.applied(p).w.le_spec(scalar(ZERO)),
        divided(proj.applied(p)).is_finite(),
{
    lemma_scaled_within(proj.x, p.x, 20, 19);
    lemma_scaled_within(proj.y, p.y, 20, 19);
    lemma_scaled_within(proj.z, p.z, 20, 19);
    lemma_scaled_within(proj.w, p.w, 20, 19);
    let a = proj.x.scaled(p.x);
    let b = proj.y.scaled(p.y);
    let c = proj.z.scaled(p.z);
    let d = proj.w.scaled(p.w);
    lemma_points4(a, b, c, d, 39);
    let q = proj.applied(p);
    // the divisor is the distance along the view
    lemma_zero_product(proj.x.w, p.x);
    lemma_zero_product(proj.y.w, p.y);
    lemma_zero_product(proj.w.w, p.w);
    lemma_product_minus_one(p.z);
    lemma_zero_sum(a.w, b.w);
    lemma_sum_with_zero(c.w, a.w.add_spec(b.w));
    lemma_sum_with_zero(a.w.add_spec(b.w).add_spec(c.w), d.w);
    assert(q.w.num() == -p.z.num());
    lemma_one();
    lemma_unit();
    lemma2_to64();
    lemma_pow2_adds(2, 42);
    let n = q.w.num();
    assert(pow2(42) * unit() <= pow2(44) * n) by (nonlinear_arith)
        requires
            pow2(44) == 4 * pow2(42),
            4 * n >= unit(),
    ;
    lemma_within_quotient(q.x, q.w, 44);
    lemma_within_quotient(q.y, q.w, 44);
    lemma_within_quotient(q.z, q.w, 44);
}

/// The mean distance of a ready piece is a number.
proof fn lemma_depth(t: ViewTri)
    requires
        is_ready(t.a),
        is_ready(t.b),
        is_ready(t.c),
    ensures
        !depth_of(t).is_nan_spec(),
{
    lemma_within_sum(t.a.z, t.b.z, 19);
    lemma_within_weakens(t.c.z, 19, 20);
    let sum = t.a.z.add_spec(t.b.z).add_spec(t.c.z);
    lemma_within_sum(t.a.z.add_spec(t.b.z), t.c.z, 20);
    lemma_within_neg(sum, 21);
    let three = scalar(0x4040_0000);
    lemma_two();
    lemma_unit();
    lemma_magnitude_increases(TWO as nat, 0x4040_0000);
    lemma_within_pattern(three, 2);
    assert(pow2(21) * unit() <= pow2(21) * abs_int(three.num())) by (nonlinear_arith)
        requires
            unit() <= abs_int(three.num()),
    ;
    lemma_within_quotient(sum.neg_spec(), three, 21);
}

spec fn is_drawable(t: ScreenTri) -> bool {
    t.a.is_finite() && t.b.is_finite() && t.c.is_finite() && t.color.is_finite()
}

spec fn all_drawable(s: Seq<ScreenTri>) -> bool {
    forall|i: int| 0 <= i < s.len() ==> is_drawable(#[trigger] s[i])
}

proof fn lemma_sorted_drawable(s: Seq<ScreenTri>, x: ScreenTri)
    requires
        all_drawable(s),
        is_drawable(x),
    ensures
        all_drawable(sorted_in(s, x)),
    decreases s.len(),
{
    if s.len() > 0 && drawn_after(s.last(), x) {
        let t = s.drop_last();
        assert forall|i: int| 0 <= i < t.len() implies is_drawable(#[trigger] t[i]) by {
            assert(is_drawable(s[i]));
        }
        lemma_sorted_drawable(t, x);
        assert(is_drawable(s[s.len() - 1]));
    }
}

proof fn lemma_pieces_drawable(
    s: Seq<ScreenTri>,
    pieces: Seq<ViewTri>,
    raw: RawTri,
    proj: Matrix,
    k: int,
)
    requires
        all_drawable(s),
        is_perspective(proj),
        raw.color.is_finite(),
        0 <= k <= pieces.len(),
        forall|i: int|
            0 <= i < pieces.len() ==> is_ready((#[trigger] pieces[i]).a) && is_ready(pieces[i].b)
                && is_ready(pieces[i].c),
    ensures
        all_drawable(pieces_in(s, pieces, raw, proj, k)),
        pieces_in(s, pieces, raw, proj, k).len() == s.len() + k,
    decreases k,
{
    if k > 0 {
        lemma_pieces_drawable(s, pieces, raw, proj, k - 1);
        let t = pieces[k - 1];
        lemma_corner_finite(t.a, proj);
        lemma_corner_finite(t.b, proj);
        lemma_corner_finite(t.c, proj);
        let before = pieces_in(s, pieces, raw, proj, k - 1);
        lemma_sorted_drawable(before, projected(t, raw, proj)->0);
        lemma_sorted_len(before, projected(t, raw, proj)->0);
    }
}

proof fn lemma_sorted_len(s: Seq<ScreenTri>, x: ScreenTri)
    ensures
        sorted_in(s, x).len() == s.len() + 1,
    decreases s.len(),
{
    if s.len() > 0 && drawn_after(s.last(), x) {
        lemma_sorted_len(s.drop_last(), x);
    }
}

proof fn lemma_screen_drawable(tris: Seq<RawTri>, view: Matrix, proj: Matrix, k: int)
    requires
        all_tame(tris),
        is_bounded_view(view),
        is_perspective(proj),
        0 <= k <= tris.len(),
    ensures
        all_drawable(screen_tris(tris, view, proj, k)),
        screen_tris(tris, view, proj, k).len() == piece_count(tris, view, k),
    decreases k,
{
    if k > 0 {
        lemma_screen_drawable(tris, view, proj, k - 1);
        let t = tris[k - 1];
        assert(is_tame(t));
        lemma_pieces_ready(t, view);
        let pieces = clipped(t, view);
        lemma_pieces_drawable(
            screen_tris(tris, view, proj, k - 1),
            pieces,
            t,
            proj,
            pieces.len() as int,
        );
    }
}

/// How many pieces the first `k` triangles are clipped to.
pub open spec fn piece_count(tris: Seq<RawTri>, view: Matrix, k: int) -> nat
    decreases k,
{
    if k <= 0 {
        0
    } else {
        piece_count(tris, view, k - 1) + clipped(tris[k - 1], view).len()
    }
}

proof fn lemma_buffer_finite(tris: Seq<ScreenTri>, k: int)
    requires
        all_drawable(tris),
        0 <= k <= tris.len(),
    ensures
        forall|i: int|
            0 <= i < buffer(tris, k).len() ==> (#[trigger] buffer(tris, k)[i]).is_finite_spec(),
    decreases k,
{
    if k > 0 {
        lemma_buffer_finite(tris, k - 1);
        let t = tris[k - 1];
        assert(is_drawable(t));
        let before = buffer(tris, k - 1);
        let a = corner(t.a, t.color);
        let b = corner(t.b, t.color);
        let c = corner(t.c, t.color);
        let all = buffer(tris, k);
        assert(all == before + a + b + c);
        assert forall|i: int| 0 <= i < all.len() implies (#[trigger] all[i]).is_finite_spec() by {
            let n = before.len();
            if i < n {
                assert(all[i] == before[i]);
            } else if i < n + 6 {
                assert(all[i] == a[i - n]);
            } else if i < n + 12 {
                assert(all[i] == b[i - n - 6]);
            } else {
                assert(all[i] == c[i - n - 12]);
            }
        }
    }
}

/// The buffer of a bounded scene, seen by a bounded camera through a
/// perspective projection, holds finite numbers only, no piece of a clipped
/// triangle is lost, and within a layer the far is drawn before the near.
#[verifier::rlimit(40)]
pub proof fn law_bounded_scenes_are_drawn(input: ViewportView, view: Matrix, proj: Matrix)
    requires
        is_bounded_scene(input),
        is_bounded_view(view),
        is_perspective(proj),
    ensures
        ({
            let tris = city_tris(input);
            let shown = screen_tris(tris, view, proj, tris.len() as int);
            let out = buffer(shown, shown.len() as int);
            &&& shown.len() == piece_count(tris, view, tris.len() as int)
            &&& forall|i: int| 0 <= i < out.len() ==> (#[trigger] out[i]).is_finite_spec()
            &&& in_painter_order(shown)
        }),
{
    let tris = city_tris(input);
    lemma_city(input);
    assert forall|i: int, m: int|
        #![trigger clipped(tris[i], view)[m]]
        0 <= i < tris.len() && 0 <= m < clipped(tris[i], view).len() implies !depth_of(
        clipped(tris[i], view)[m],
    ).is_nan_spec() by {
        assert(is_tame(tris[i]));
        lemma_pieces_ready(tris[i], view);
        lemma_depth(clipped(tris[i], view)[m]);
    }
    law_far_before_near(tris, view, proj, tris.len() as int);
    lemma_screen_drawable(tris, view, proj, tris.len() as int);
    let shown = screen_tris(tris, view, proj, tris.len() as int);
    lemma_buffer_finite(shown, shown.len() as int);
}

} // verus!
