//! What stands in the scene, triangle by triangle.

use super::draw::{all_tris, city_tris, every_tri, grid_pair, ground_tris, ViewportView, GRID_LINES};
use super::shapes::{
    agent_tris, block_tris, box_tris, marker_tris, normal, path_tris, point, poly_tris, prop_tris,
    ribbon, wall_tris, AgentMarker, GroundMarker, PathView, Point3, PolyView, PropBox, RawTri,
    WallSeg, LAYER_GRID, LAYER_GROUND, LAYER_MARKER, LAYER_PATH, LAYER_POLY, LAYER_SOLID,
};
use super::{skyline, BlockView, Rgb};
use super::finite::{lemma_micro, lemma_sides};
use crate::scalar::arith::abs_int;
use crate::scalar::bounds::{lemma_within_weakens, PRECISION};
use crate::scalar::consts::{MICRO, TWO, ZERO};
use crate::scalar::monotone::lemma_root;
use crate::scalar::{scalar, Scalar};
use crate::sim::agent::Position;
use crate::sim::laws::distance::{lemma_difference_close, lies_within};
use crate::sim::laws::score::lemma_root_bound;
use crate::sim::laws::walking::lemma_part;
use crate::sim::systems::walk::dist2;
use vstd::prelude::*;

verus! {

/// The triangle has these three corners, in some order.
pub open spec fn has_corners(t: RawTri, p: Point3, q: Point3, r: Point3) -> bool {
    ||| t.a == p && ((t.b == q && t.c == r) || (t.b == r && t.c == q))
    ||| t.a == q && ((t.b == p && t.c == r) || (t.b == r && t.c == p))
    ||| t.a == r && ((t.b == p && t.c == q) || (t.b == q && t.c == p))
}

/// Triangles `i` and `i + 1` fill the quad around four points, in their order.
pub open spec fn fills(s: Seq<RawTri>, i: int, p: Point3, q: Point3, r: Point3, t: Point3) -> bool {
    &&& 0 <= i && i + 1 < s.len()
    &&& has_corners(s[i], p, q, r)
    &&& has_corners(s[i + 1], p, r, t)
}

/// Some pair of triangles fills the quad around four points, in their order.
pub open spec fn has_quad(s: Seq<RawTri>, p: Point3, q: Point3, r: Point3, t: Point3) -> bool {
    exists|i: int| #[trigger] fills(s, i, p, q, r, t)
}

/// All triangles lie in a layer.
pub open spec fn in_layer(s: Seq<RawTri>, layer: u8) -> bool {
    forall|i: int| 0 <= i < s.len() ==> (#[trigger] s[i]).layer == layer
}

/// A box stands on the ground around its center: its top and its four sides are
/// there, and nothing else. Left and right lie half its width from the center,
/// back and front half its depth, and the top at its height.
pub proof fn law_boxes_stand_on_the_ground(
    cx: Scalar,
    cz: Scalar,
    w: Scalar,
    h: Scalar,
    d: Scalar,
    c: Rgb,
)
    ensures
        ({
            let s = box_tris(cx, cz, w, h, d, c);
            let left = cx.sub_spec(w.div_spec(scalar(TWO)));
            let right = cx.add_spec(w.div_spec(scalar(TWO)));
            let back = cz.sub_spec(d.div_spec(scalar(TWO)));
            let front = cz.add_spec(d.div_spec(scalar(TWO)));
            let o = scalar(ZERO);
            &&& s.len() == 10 && in_layer(s, LAYER_SOLID)
            &&& has_quad(
                s,
                point(left, h, back),
                point(left, h, front),
                point(right, h, front),
                point(right, h, back),
            )
            &&& has_quad(
                s,
                point(right, o, back),
                point(right, o, front),
                point(right, h, front),
                point(right, h, back),
            )
            &&& has_quad(
                s,
                point(left, o, front),
                point(left, o, back),
                point(left, h, back),
                point(left, h, front),
            )
            &&& has_quad(
                s,
                point(right, o, front),
                point(left, o, front),
                point(left, h, front),
                point(right, h, front),
            )
            &&& has_quad(
                s,
                point(left, o, back),
                point(right, o, back),
                point(right, h, back),
                point(left, h, back),
            )
        }),
{
    let s = box_tris(cx, cz, w, h, d, c);
    let left = cx.sub_spec(w.div_spec(scalar(TWO)));
    let right = cx.add_spec(w.div_spec(scalar(TWO)));
    let back = cz.sub_spec(d.div_spec(scalar(TWO)));
    let front = cz.add_spec(d.div_spec(scalar(TWO)));
    let o = scalar(ZERO);
    assert(fills(
        s,
        0,
        point(left, h, back),
        point(left, h, front),
        point(right, h, front),
        point(right, h, back),
    ));
    assert(fills(
        s,
        2,
        point(right, o, back),
        point(right, o, front),
        point(right, h, front),
        point(right, h, back),
    ));
    assert(fills(
        s,
        4,
        point(left, o, front),
        point(left, o, back),
        point(left, h, back),
        point(left, h, front),
    ));
    assert(fills(
        s,
        6,
        point(right, o, front),
        point(left, o, front),
        point(left, h, front),
        point(right, h, front),
    ));
    assert(fills(
        s,
        8,
        point(left, o, back),
        point(right, o, back),
        point(right, h, back),
        point(left, h, back),
    ));
}

/// Some triangle has these corners and this colour.
pub open spec fn has_face(s: Seq<RawTri>, p: Point3, q: Point3, r: Point3) -> bool {
    exists|i: int| 0 <= i < s.len() && has_corners(#[trigger] s[i], p, q, r)
}

/// An agent's token is an octahedron around the agent: each two neighbouring
/// corners of its waist make a face with its top and one with its bottom.
pub proof fn law_tokens_are_octahedra(a: AgentMarker)
    ensures
        ({
            let s = agent_tris(a);
            let r = scalar(0x3f66_6666 /* 0.9 */);
            let y = scalar(0x3f99_999a /* 1.2 */);
            let east = point(a.x.add_spec(r), y, a.z);
            let south = point(a.x, y, a.z.add_spec(r));
            let west = point(a.x.sub_spec(r), y, a.z);
            let north = point(a.x, y, a.z.sub_spec(r));
            let top = point(a.x, scalar(0x4006_6666 /* 2.1 */), a.z);
            let bottom = point(a.x, scalar(0x3e99_999a /* 0.3 */), a.z);
            &&& s.len() == 8 && in_layer(s, LAYER_SOLID)
            &&& has_face(s, top, east, south) && has_face(s, bottom, east, south)
            &&& has_face(s, top, south, west) && has_face(s, bottom, south, west)
            &&& has_face(s, top, west, north) && has_face(s, bottom, west, north)
            &&& has_face(s, top, north, east) && has_face(s, bottom, north, east)
        }),
{
    let s = agent_tris(a);
    let r = scalar(0x3f66_6666);
    let y = scalar(0x3f99_999a);
    let east = point(a.x.add_spec(r), y, a.z);
    let south = point(a.x, y, a.z.add_spec(r));
    let west = point(a.x.sub_spec(r), y, a.z);
    let north = point(a.x, y, a.z.sub_spec(r));
    let top = point(a.x, scalar(0x4006_6666), a.z);
    let bottom = point(a.x, scalar(0x3e99_999a), a.z);
    assert(has_corners(s[0], top, east, south));
    assert(has_corners(s[1], bottom, east, south));
    assert(has_corners(s[2], top, south, west));
    assert(has_corners(s[3], bottom, south, west));
    assert(has_corners(s[4], top, west, north));
    assert(has_corners(s[5], bottom, west, north));
    assert(has_corners(s[6], top, north, east));
    assert(has_corners(s[7], bottom, north, east));
}

/// A marker is a diamond around its place, as far to each side as its size.
pub proof fn law_markers_are_diamonds(m: GroundMarker)
    ensures
        ({
            let s = marker_tris(m);
            let y = scalar(0x3d75_c28f /* 0.06 */);
            &&& s.len() == 2 && in_layer(s, LAYER_MARKER)
            &&& has_quad(
                s,
                point(m.x.sub_spec(m.size), y, m.z),
                point(m.x, y, m.z.add_spec(m.size)),
                point(m.x.add_spec(m.size), y, m.z),
                point(m.x, y, m.z.sub_spec(m.size)),
            )
        }),
{
    let s = marker_tris(m);
    let y = scalar(0x3d75_c28f);
    assert(fills(
        s,
        0,
        point(m.x.sub_spec(m.size), y, m.z),
        point(m.x, y, m.z.add_spec(m.size)),
        point(m.x.add_spec(m.size), y, m.z),
        point(m.x, y, m.z.sub_spec(m.size)),
    ));
}

/// The triangles of a path's first stretches stay where they are when more
/// come.
proof fn lemma_path_places(p: PathView, k: int, i: int)
    requires
        0 <= i < k,
    ensures
        path_tris(p, k).len() == 2 * k,
        path_tris(p, k)[2 * i] == ribbon(p.points[i], p.points[i + 1], p.width, p.color)[0],
        path_tris(p, k)[2 * i + 1] == ribbon(p.points[i], p.points[i + 1], p.width, p.color)[1],
        forall|j: int| 0 <= j < 2 * k ==> (#[trigger] path_tris(p, k)[j]).layer == LAYER_PATH,
    decreases k,
{
    lemma_path_len(p, k - 1);
    if i < k - 1 {
        lemma_path_places(p, k - 1, i);
    }
    if k > 1 {
        lemma_path_places(p, k - 1, 0);
    }
    let before = path_tris(p, k - 1);
    let all = path_tris(p, k);
    assert forall|j: int| 0 <= j < 2 * k implies (#[trigger] all[j]).layer == LAYER_PATH by {
        if j < 2 * (k - 1) {
            assert(all[j] == before[j]);
        }
    }
}

proof fn lemma_path_len(p: PathView, k: int)
    requires
        k >= 0,
    ensures
        path_tris(p, k).len() == 2 * k,
    decreases k,
{
    if k > 0 {
        lemma_path_len(p, k - 1);
    }
}

/// A road is a ribbon along every stretch from one of its points to the next,
/// as wide as the road, half to each side.
pub proof fn law_roads_are_ribbons(p: PathView, i: int)
    requires
        0 <= i,
        i + 1 < p.points.len(),
    ensures
        ({
            let s = path_tris(p, p.points.len() - 1);
            let (a, b) = (p.points[i], p.points[i + 1]);
            let n = normal(a, b, p.width.div_spec(scalar(TWO)));
            let y = scalar(0x3db8_51ec /* 0.09 */);
            &&& s.len() == 2 * (p.points.len() - 1) && in_layer(s, LAYER_PATH)
            &&& has_quad(
                s,
                point(a.x.sub_spec(n.x), y, a.z.sub_spec(n.z)),
                point(a.x.add_spec(n.x), y, a.z.add_spec(n.z)),
                point(b.x.add_spec(n.x), y, b.z.add_spec(n.z)),
                point(b.x.sub_spec(n.x), y, b.z.sub_spec(n.z)),
            )
        }),
{
    let k = p.points.len() - 1;
    let s = path_tris(p, k);
    lemma_path_places(p, k, i);
    let (a, b) = (p.points[i], p.points[i + 1]);
    let n = normal(a, b, p.width.div_spec(scalar(TWO)));
    let y = scalar(0x3db8_51ec);
    assert(fills(
        s,
        2 * i,
        point(a.x.sub_spec(n.x), y, a.z.sub_spec(n.z)),
        point(a.x.add_spec(n.x), y, a.z.add_spec(n.z)),
        point(b.x.add_spec(n.x), y, b.z.add_spec(n.z)),
        point(b.x.sub_spec(n.x), y, b.z.sub_spec(n.z)),
    ));
}

proof fn lemma_fan_places(p: PolyView, k: int, i: int)
    requires
        1 <= i <= k,
    ensures
        poly_tris(p, k).len() == k,
        poly_tris(p, k)[i - 1].a == super::shapes::zone_point(p.points[0]),
        poly_tris(p, k)[i - 1].b == super::shapes::zone_point(p.points[i]),
        poly_tris(p, k)[i - 1].c == super::shapes::zone_point(p.points[i + 1]),
        forall|j: int| 0 <= j < k ==> (#[trigger] poly_tris(p, k)[j]).layer == LAYER_POLY,
    decreases k,
{
    if i < k {
        lemma_fan_places(p, k - 1, i);
    } else if k > 1 {
        lemma_fan_places(p, k - 1, 1);
    } else {
        assert(poly_tris(p, 0).len() == 0);
    }
}

/// A zone is filled by one triangle for each of its edges that does not touch
/// its first point, from that point.
pub proof fn law_zones_are_fans(p: PolyView, i: int)
    requires
        1 <= i,
        i + 1 < p.points.len(),
    ensures
        ({
            let s = poly_tris(p, p.points.len() - 2);
            let y = scalar(0x3d8f_5c29 /* 0.07 */);
            let corner = |j: int| point(p.points[j].x, y, p.points[j].z);
            &&& s.len() == p.points.len() - 2 && in_layer(s, LAYER_POLY)
            &&& has_face(s, corner(0), corner(i), corner(i + 1))
        }),
{
    let k = p.points.len() - 2;
    let s = poly_tris(p, k);
    lemma_fan_places(p, k, i);
    let y = scalar(0x3d8f_5c29);
    let corner = |j: int| point(p.points[j].x, y, p.points[j].z);
    assert(has_corners(s[i - 1], corner(0), corner(i), corner(i + 1)));
}

/// A wall stands along its segment, as high as it is built: a side to the left,
/// one to the right, and a cap on top.
pub proof fn law_walls_stand_along_their_segment(w: WallSeg)
    ensures
        ({
            let s = wall_tris(w);
            let n = normal(
                Position { x: w.ax, z: w.az },
                Position { x: w.bx, z: w.bz },
                scalar(0x3e4c_cccd /* 0.2 */),
            );
            let o = scalar(ZERO);
            let h = w.height;
            let al = |y: Scalar| point(w.ax.add_spec(n.x), y, w.az.add_spec(n.z));
            let bl = |y: Scalar| point(w.bx.add_spec(n.x), y, w.bz.add_spec(n.z));
            let ar = |y: Scalar| point(w.ax.sub_spec(n.x), y, w.az.sub_spec(n.z));
            let br = |y: Scalar| point(w.bx.sub_spec(n.x), y, w.bz.sub_spec(n.z));
            &&& s.len() == 6 && in_layer(s, LAYER_SOLID)
            &&& has_quad(s, al(o), bl(o), bl(h), al(h))
            &&& has_quad(s, br(o), ar(o), ar(h), br(h))
            &&& has_quad(s, ar(h), al(h), bl(h), br(h))
        }),
{
    let s = wall_tris(w);
    let n = normal(
        Position { x: w.ax, z: w.az },
        Position { x: w.bx, z: w.bz },
        scalar(0x3e4c_cccd),
    );
    let o = scalar(ZERO);
    let h = w.height;
    let al = |y: Scalar| point(w.ax.add_spec(n.x), y, w.az.add_spec(n.z));
    let bl = |y: Scalar| point(w.bx.add_spec(n.x), y, w.bz.add_spec(n.z));
    let ar = |y: Scalar| point(w.ax.sub_spec(n.x), y, w.az.sub_spec(n.z));
    let br = |y: Scalar| point(w.bx.sub_spec(n.x), y, w.bz.sub_spec(n.z));
    assert(fills(s, 0, al(o), bl(o), bl(h), al(h)));
    assert(fills(s, 2, br(o), ar(o), ar(h), br(h)));
    assert(fills(s, 4, ar(h), al(h), bl(h), br(h)));
}

/// The ground is a square of 240 units around the origin, at height zero.
pub proof fn law_ground_is_a_square()
    ensures
        ({
            let s = ground_tris();
            let lo = scalar(0xc2f0_0000 /* -120 */);
            let hi = scalar(0x42f0_0000 /* 120 */);
            let o = scalar(ZERO);
            s.len() == 2 && in_layer(s, LAYER_GROUND) && has_quad(
                s,
                point(lo, o, lo),
                point(lo, o, hi),
                point(hi, o, hi),
                point(hi, o, lo),
            )
        }),
{
    let s = ground_tris();
    let lo = scalar(0xc2f0_0000);
    let hi = scalar(0x42f0_0000);
    let o = scalar(ZERO);
    assert(fills(s, 0, point(lo, o, lo), point(lo, o, hi), point(hi, o, hi), point(hi, o, lo)));
}

/// Every tenth unit from -120 to 120 a thin line runs across the ground each
/// way.
pub proof fn law_survey_lines(i: int)
    requires
        0 <= i < 25,
    ensures
        ({
            let s = grid_pair(i);
            let k = Scalar::from_int_spec(10 * i - 120);
            let a = k.sub_spec(scalar(0x3e00_0000 /* 0.125 */));
            let b = k.add_spec(scalar(0x3e00_0000 /* 0.125 */));
            let y = scalar(0x3ca3_d70a /* 0.02 */);
            let lo = scalar(0xc2f0_0000 /* -120 */);
            let hi = scalar(0x42f0_0000 /* 120 */);
            &&& s.len() == 4 && in_layer(s, LAYER_GRID)
            &&& has_quad(s, point(a, y, lo), point(a, y, hi), point(b, y, hi), point(b, y, lo))
            &&& has_quad(s, point(lo, y, a), point(lo, y, b), point(hi, y, b), point(hi, y, a))
        }),
{
    let s = grid_pair(i);
    let k = Scalar::from_int_spec(10 * i - 120);
    let a = k.sub_spec(scalar(0x3e00_0000));
    let b = k.add_spec(scalar(0x3e00_0000));
    let y = scalar(0x3ca3_d70a);
    let lo = scalar(0xc2f0_0000);
    let hi = scalar(0x42f0_0000);
    assert(fills(s, 0, point(a, y, lo), point(a, y, hi), point(b, y, hi), point(b, y, lo)));
    assert(fills(s, 2, point(lo, y, a), point(lo, y, b), point(hi, y, b), point(hi, y, a)));
}

/// The layers stack from the ground over survey lines, zones, roads and markers
/// to everything that stands.
pub proof fn law_layers_in_order()
    ensures
        LAYER_GROUND < LAYER_GRID < LAYER_POLY < LAYER_PATH < LAYER_MARKER < LAYER_SOLID,
{
}

/// Every triangle of `t` is among those of `s`.
pub open spec fn holds_all(s: Seq<RawTri>, t: Seq<RawTri>) -> bool {
    forall|i: int| 0 <= i < t.len() ==> s.contains(#[trigger] t[i])
}

proof fn lemma_every<A>(items: Seq<A>, tris: spec_fn(A) -> Seq<RawTri>, k: int, i: int)
    requires
        0 <= i < k <= items.len(),
    ensures
        holds_all(all_tris(items, tris, k), tris(items[i])),
    decreases k,
{
    let all = all_tris(items, tris, k);
    let before = all_tris(items, tris, k - 1);
    let t = tris(items[i]);
    if i < k - 1 {
        lemma_every(items, tris, k - 1, i);
        assert forall|j: int| 0 <= j < t.len() implies all.contains(#[trigger] t[j]) by {
            assert(before.contains(t[j]));
            let m = choose|m: int| 0 <= m < before.len() && before[m] == t[j];
            assert(all[m] == t[j]);
        }
    } else {
        assert forall|j: int| 0 <= j < t.len() implies all.contains(#[trigger] t[j]) by {
            assert(all[before.len() + j] == t[j]);
        }
    }
}

proof fn lemma_joined(s: Seq<RawTri>, t: Seq<RawTri>)
    ensures
        holds_all(s + t, s),
        holds_all(s + t, t),
{
    let r = s + t;
    assert forall|i: int| 0 <= i < s.len() implies r.contains(#[trigger] s[i]) by {
        assert(r[i] == s[i]);
    }
    assert forall|i: int| 0 <= i < t.len() implies r.contains(#[trigger] t[i]) by {
        assert(r[s.len() + i] == t[i]);
    }
}

proof fn lemma_holds_chain(r: Seq<RawTri>, s: Seq<RawTri>, t: Seq<RawTri>)
    requires
        holds_all(r, s),
        holds_all(s, t),
    ensures
        holds_all(r, t),
{
    assert forall|i: int| 0 <= i < t.len() implies r.contains(#[trigger] t[i]) by {
        assert(s.contains(t[i]));
        let k = choose|k: int| 0 <= k < s.len() && s[k] == t[i];
        assert(r.contains(s[k]));
    }
}

/// Everything is in the picture: the ground, every survey line, every block of
/// the skyline, and every agent, marker, road, zone, wall and piece of
/// furniture of the input.
pub proof fn law_everything_is_in_the_picture(input: ViewportView, i: int)
    ensures
        ({
            let s = city_tris(input);
            &&& holds_all(s, ground_tris())
            &&& 0 <= i < 25 ==> holds_all(s, grid_pair(i))
            &&& 0 <= i < skyline().len() ==> holds_all(
                s,
                box_tris(
                    skyline()[i].cx,
                    skyline()[i].cz,
                    skyline()[i].w,
                    skyline()[i].h,
                    skyline()[i].d,
                    skyline()[i].color,
                ),
            )
            &&& 0 <= i < input.agents.len() ==> holds_all(s, agent_tris(input.agents[i]))
            &&& 0 <= i < input.markers.len() ==> holds_all(s, marker_tris(input.markers[i]))
            &&& 0 <= i < input.paths.len() ==> holds_all(
                s,
                path_tris(input.paths[i], input.paths[i].points.len() - 1),
            )
            &&& 0 <= i < input.polys.len() ==> holds_all(
                s,
                poly_tris(input.polys[i], input.polys[i].points.len() - 2),
            )
            &&& 0 <= i < input.walls.len() ==> holds_all(s, wall_tris(input.walls[i]))
            &&& 0 <= i < input.props.len() ==> holds_all(
                s,
                box_tris(
                    input.props[i].cx,
                    input.props[i].cz,
                    input.props[i].w,
                    input.props[i].h,
                    input.props[i].d,
                    input.props[i].color,
                ),
            )
        }),
{
    let all = city_tris(input);
    let steps = Seq::new(GRID_LINES as nat, |i: int| i);
    let fg = |i: int| grid_pair(i);
    let fb = |b: BlockView| block_tris(b);
    let fa = |a: AgentMarker| agent_tris(a);
    let fm = |m: GroundMarker| marker_tris(m);
    let fp = |p: PathView| path_tris(p, p.points.len() - 1);
    let fz = |p: PolyView| poly_tris(p, p.points.len() - 2);
    let fw = |w: WallSeg| wall_tris(w);
    let fo = |p: PropBox| prop_tris(p);
    let s0 = ground_tris();
    let g = every_tri(steps, fg);
    let b = every_tri(skyline(), fb);
    let a = every_tri(input.agents, fa);
    let m = every_tri(input.markers, fm);
    let p = every_tri(input.paths, fp);
    let z = every_tri(input.polys, fz);
    let w = every_tri(input.walls, fw);
    let o = every_tri(input.props, fo);
    let s1 = s0 + g;
    let s2 = s1 + b;
    let s3 = s2 + a;
    let s4 = s3 + m;
    let s5 = s4 + p;
    let s6 = s5 + z;
    let s7 = s6 + w;
    assert(all == s7 + o);
    lemma_joined(s7, o);
    lemma_joined(s6, w);
    lemma_holds_chain(all, s7, w);
    lemma_holds_chain(all, s7, s6);
    lemma_joined(s5, z);
    lemma_holds_chain(all, s6, z);
    lemma_holds_chain(all, s6, s5);
    lemma_joined(s4, p);
    lemma_holds_chain(all, s5, p);
    lemma_holds_chain(all, s5, s4);
    lemma_joined(s3, m);
    lemma_holds_chain(all, s4, m);
    lemma_holds_chain(all, s4, s3);
    lemma_joined(s2, a);
    lemma_holds_chain(all, s3, a);
    lemma_holds_chain(all, s3, s2);
    lemma_joined(s1, b);
    lemma_holds_chain(all, s2, b);
    lemma_holds_chain(all, s2, s1);
    lemma_joined(s0, g);
    lemma_holds_chain(all, s1, g);
    lemma_holds_chain(all, s1, s0);
    if 0 <= i < 25 {
        lemma_every(steps, fg, 25, i);
        assert(fg(steps[i]) == grid_pair(i));
        lemma_holds_chain(all, g, grid_pair(i));
    }
    if 0 <= i < skyline().len() {
        lemma_every(skyline(), fb, skyline().len() as int, i);
        lemma_holds_chain(all, b, fb(skyline()[i]));
    }
    if 0 <= i < input.agents.len() {
        lemma_every(input.agents, fa, input.agents.len() as int, i);
        lemma_holds_chain(all, a, fa(input.agents[i]));
    }
    if 0 <= i < input.markers.len() {
        lemma_every(input.markers, fm, input.markers.len() as int, i);
        lemma_holds_chain(all, m, fm(input.markers[i]));
    }
    if 0 <= i < input.paths.len() {
        lemma_every(input.paths, fp, input.paths.len() as int, i);
        lemma_holds_chain(all, p, fp(input.paths[i]));
    }
    if 0 <= i < input.polys.len() {
        lemma_every(input.polys, fz, input.polys.len() as int, i);
        lemma_holds_chain(all, z, fz(input.polys[i]));
    }
    if 0 <= i < input.walls.len() {
        lemma_every(input.walls, fw, input.walls.len() as int, i);
        lemma_holds_chain(all, w, fw(input.walls[i]));
    }
    if 0 <= i < input.props.len() {
        lemma_every(input.props, fo, input.props.len() as int, i);
        lemma_holds_chain(all, o, fo(input.props[i]));
    }
}

proof fn lemma_equal_sizes<A>(items: Seq<A>, tris: spec_fn(A) -> Seq<RawTri>, n: nat, k: int)
    requires
        0 <= k <= items.len(),
        forall|i: int| 0 <= i < items.len() ==> tris(#[trigger] items[i]).len() == n,
    ensures
        all_tris(items, tris, k).len() == n * k,
    decreases k,
{
    if k > 0 {
        lemma_equal_sizes(items, tris, n, k - 1);
        assert(tris(items[k - 1]).len() == n);
        assert(n * k == n * (k - 1) + n) by (nonlinear_arith);
    } else {
        assert(n * k == 0) by (nonlinear_arith)
            requires
                k == 0,
        ;
    }
}

/// Nothing is in the picture that is not in the scene: without roads and zones
/// there are 172 triangles of ground, lines and skyline, eight for each agent,
/// two for each marker, six for each wall and ten for each piece of furniture.
pub proof fn law_nothing_else_is_in_the_picture(input: ViewportView)
    requires
        input.paths.len() == 0,
        input.polys.len() == 0,
    ensures
        city_tris(input).len() == 172 + 8 * input.agents.len() + 2 * input.markers.len() + 6
            * input.walls.len() + 10 * input.props.len(),
{
    let steps = Seq::new(GRID_LINES as nat, |i: int| i);
    lemma_equal_sizes(steps, |i: int| grid_pair(i), 4, 25);
    lemma_equal_sizes(skyline(), |b: BlockView| block_tris(b), 10, 7);
    lemma_equal_sizes(
        input.agents,
        |a: AgentMarker| agent_tris(a),
        8,
        input.agents.len() as int,
    );
    lemma_equal_sizes(
        input.markers,
        |m: GroundMarker| marker_tris(m),
        2,
        input.markers.len() as int,
    );
    lemma_equal_sizes(input.walls, |w: WallSeg| wall_tris(w), 6, input.walls.len() as int);
    lemma_equal_sizes(input.props, |p: PropBox| prop_tris(p), 10, input.props.len() as int);
}

/// The sideways offset of a strip stands across its segment, to the left, and is
/// as long as half the strip is wide: times the length of the segment it is the
/// segment turned by a quarter, times that width, up to rounding.
pub proof fn law_offsets_stand_across(a: Position, b: Position, half: Scalar)
    requires
        lies_within(a, 11),
        lies_within(b, 11),
        half.within(11),
        half.num() >= 0,
        scalar(MICRO).le_spec(dist2(b.x, b.z, a).sqrt_spec()),
    ensures
        ({
            let n = normal(a, b, half);
            let len = dist2(b.x, b.z, a).sqrt_spec().num();
            let dx = b.x.num() - a.x.num();
            let dz = b.z.num() - a.z.num();
            let s = half.num();
            &&& abs_int(n.x.num() * len + dz * s) * PRECISION <= 8 * (abs_int(dz) * s)
                + 0x400_0000_0000 * len
            &&& abs_int(n.z.num() * len - dx * s) * PRECISION <= 8 * (abs_int(dx) * s)
                + 0x400_0000_0000 * len
        }),
{
    lemma_sides(a, b);
    lemma_micro();
    vstd::arithmetic::power2::lemma_pow2_pos(129);
    let d2 = dist2(b.x, b.z, a);
    lemma_within_weakens(d2, 25, 35);
    lemma_within_weakens(d2, 25, 60);
    lemma_root(d2);
    lemma_root_bound(d2);
    lemma_within_weakens(half, 11, 18);
    let len = d2.sqrt_spec();
    let dx = b.x.sub_spec(a.x);
    let dz = b.z.sub_spec(a.z);
    lemma_difference_close(b.x, a.x);
    lemma_difference_close(b.z, a.z);
    crate::scalar::bounds::lemma_within_neg(dz, 12);
    lemma_part(dx, len, half);
    lemma_part(dz.neg_spec(), len, half);
    lemma_swap_side(
        normal(a, b, half).z.num() * len.num(),
        dx.num(),
        b.x.num() - a.x.num(),
        half.num(),
        len.num(),
    );
    lemma_swap_side(
        normal(a, b, half).x.num() * len.num(),
        dz.neg_spec().num(),
        -(b.z.num() - a.z.num()),
        half.num(),
        len.num(),
    );
    let d = b.z.num() - a.z.num();
    assert((-d) * half.num() == -(d * half.num())) by (nonlinear_arith);
}

/// From a rounded side to the exact one.
proof fn lemma_swap_side(m: int, x: int, d: int, s: int, l: int)
    requires
        abs_int(m - x * s) * PRECISION <= 3 * (abs_int(x) * s) + 0x400_0000_0000 * l,
        abs_int(x - d) * PRECISION <= 3 * abs_int(d),
        s >= 0,
    ensures
        abs_int(m - d * s) * PRECISION <= 8 * (abs_int(d) * s) + 0x400_0000_0000 * l,
{
    let e = abs_int(x - d) as int;
    let ds = abs_int(d) * s;
    let xs = abs_int(x) * s;
    assert(e * s * PRECISION <= 3 * ds) by (nonlinear_arith)
        requires
            e * PRECISION <= 3 * abs_int(d),
            ds == abs_int(d) * s,
            s >= 0,
    ;
    assert(abs_int(x * s - d * s) == e * s) by (nonlinear_arith)
        requires
            e == abs_int(x - d),
            s >= 0,
    ;
    assert(xs <= ds + e * s) by (nonlinear_arith)
        requires
            xs == abs_int(x) * s,
            ds == abs_int(d) * s,
            e == abs_int(x - d),
            s >= 0,
    ;
    assert(ds >= 0) by (nonlinear_arith)
        requires
            ds == abs_int(d) * s,
            s >= 0,
    ;
}

} // verus!
