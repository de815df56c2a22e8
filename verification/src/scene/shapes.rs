//! Triangles of the things that stand in the city.

use super::{BlockDef, BlockView, Rgb};
use crate::scalar::consts::{MICRO, ONE, TWO, ZERO};
use crate::scalar::{scalar, Scalar};
use crate::sim::agent::Position;
use vstd::prelude::*;

verus! {

/// Painter layers, drawn from the first to the last. Flat overlays hover just
/// above the ground, so pure depth sorting would flip their order against the
/// giant ground halves at grazing angles and the ground would paint over
/// them. Layers pin the physical stacking; depth sorts within a layer.
pub const LAYER_GROUND: u8 = 0;

pub const LAYER_GRID: u8 = 1;

pub const LAYER_POLY: u8 = 2;

pub const LAYER_PATH: u8 = 3;

pub const LAYER_MARKER: u8 = 4;

/// True volumes (boxes, walls, props, agents): depth orders them correctly,
/// so they share one layer.
pub const LAYER_SOLID: u8 = 5;

/// A point in space (y up).
#[derive(Clone, Copy, Debug, PartialEq, Eq, Structural)]
pub struct Point3 {
    pub x: Scalar,
    pub y: Scalar,
    pub z: Scalar,
}

#[verifier::allow_in_spec]
pub fn point(x: Scalar, y: Scalar, z: Scalar) -> (p: Point3)
    returns
        (Point3 { x, y, z }),
{
    Point3 { x, y, z }
}

/// A shaded triangle in world space with its painter layer.
#[derive(Clone, Copy, Debug, PartialEq, Eq, Structural)]
pub struct RawTri {
    pub a: Point3,
    pub b: Point3,
    pub c: Point3,
    pub color: Rgb,
    pub layer: u8,
}

/// Agent token from the sim, drawn as a small octahedron.
#[derive(Clone, Copy, Debug, PartialEq, Eq, Structural)]
pub struct AgentMarker {
    pub x: Scalar,
    pub z: Scalar,
    pub color: Rgb,
}

/// Flat planning marker (diamond quad on the ground).
#[derive(Clone, Copy, Debug, PartialEq, Eq, Structural)]
pub struct GroundMarker {
    pub x: Scalar,
    pub z: Scalar,
    pub color: Rgb,
    pub size: Scalar,
}

/// Planning path (road centre-line); rendered as a flat ribbon.
#[derive(Debug)]
pub struct PathLine {
    pub points: Vec<Position>,
    pub width: Scalar,
    pub color: Rgb,
}

/// Mathematical content of a [`PathLine`].
pub ghost struct PathView {
    pub points: Seq<Position>,
    pub width: Scalar,
    pub color: Rgb,
}

impl View for PathLine {
    type V = PathView;

    open spec fn view(&self) -> PathView {
        PathView { points: self.points@, width: self.width, color: self.color }
    }
}

/// Zone fill: flat polygon (triangle fan; assumes roughly convex zones).
#[derive(Debug)]
pub struct PathPoly {
    pub points: Vec<Position>,
    pub color: Rgb,
}

/// Mathematical content of a [`PathPoly`].
pub ghost struct PolyView {
    pub points: Seq<Position>,
    pub color: Rgb,
}

impl View for PathPoly {
    type V = PolyView;

    open spec fn view(&self) -> PolyView {
        PolyView { points: self.points@, color: self.color }
    }
}

/// Built wall: vertical box strip along a segment.
#[derive(Clone, Copy, Debug, PartialEq, Eq, Structural)]
pub struct WallSeg {
    pub ax: Scalar,
    pub az: Scalar,
    pub bx: Scalar,
    pub bz: Scalar,
    pub height: Scalar,
    pub color: Rgb,
}

/// Furniture prop: small shaded box.
#[derive(Clone, Copy, Debug, PartialEq, Eq, Structural)]
pub struct PropBox {
    pub cx: Scalar,
    pub cz: Scalar,
    pub w: Scalar,
    pub h: Scalar,
    pub d: Scalar,
    pub color: Rgb,
}

/// A colour times a shade.
pub open spec fn shaded(c: Rgb, shade: Scalar) -> Rgb {
    Rgb { r: c.r.mul_spec(shade), g: c.g.mul_spec(shade), b: c.b.mul_spec(shade) }
}

fn shade_color(c: Rgb, shade: Scalar) -> (r: Rgb)
    ensures
        r == shaded(c, shade),
{
    Rgb { r: c.r.mul(shade), g: c.g.mul(shade), b: c.b.mul(shade) }
}

/// A quad as two triangles.
pub open spec fn quad(
    a: Point3,
    b: Point3,
    c: Point3,
    d: Point3,
    color: Rgb,
    shade: Scalar,
    layer: u8,
) -> Seq<RawTri> {
    let col = shaded(color, shade);
    seq![
        RawTri { a, b, c, color: col, layer },
        RawTri { a, b: c, c: d, color: col, layer },
    ]
}

pub(crate) fn push_quad(
    tris: &mut Vec<RawTri>,
    a: Point3,
    b: Point3,
    c: Point3,
    d: Point3,
    color: Rgb,
    shade: Scalar,
    layer: u8,
)
    ensures
        final(tris)@ == old(tris)@ + quad(a, b, c, d, color, shade, layer),
{
    let col: Rgb = shade_color(color, shade);
    tris.push(RawTri { a, b, c, color: col, layer });
    tris.push(RawTri { a, b: c, c: d, color: col, layer });
    proof {
        assert(tris@ =~= old(tris)@ + quad(a, b, c, d, color, shade, layer));
    }
}

/// A box on the ground: top, then the four sides.
pub open spec fn box_tris(
    cx: Scalar,
    cz: Scalar,
    w: Scalar,
    h: Scalar,
    d: Scalar,
    c: Rgb,
) -> Seq<RawTri> {
    let x0 = cx.sub_spec(w.div_spec(scalar(TWO)));
    let x1 = cx.add_spec(w.div_spec(scalar(TWO)));
    let z0 = cz.sub_spec(d.div_spec(scalar(TWO)));
    let z1 = cz.add_spec(d.div_spec(scalar(TWO)));
    let o = scalar(ZERO);
    quad(
        point(x0, h, z0),
        point(x0, h, z1),
        point(x1, h, z1),
        point(x1, h, z0),
        c,
        scalar(ONE),
        LAYER_SOLID,
    ) + quad(
        point(x1, o, z0),
        point(x1, o, z1),
        point(x1, h, z1),
        point(x1, h, z0),
        c,
        scalar(0x3f51_eb85 /* 0.82 */),
        LAYER_SOLID,
    ) + quad(
        point(x0, o, z1),
        point(x0, o, z0),
        point(x0, h, z0),
        point(x0, h, z1),
        c,
        scalar(0x3f38_51ec /* 0.72 */),
        LAYER_SOLID,
    ) + quad(
        point(x1, o, z1),
        point(x0, o, z1),
        point(x0, h, z1),
        point(x1, h, z1),
        c,
        scalar(0x3f61_47ae /* 0.88 */),
        LAYER_SOLID,
    ) + quad(
        point(x0, o, z0),
        point(x1, o, z0),
        point(x1, h, z0),
        point(x0, h, z0),
        c,
        scalar(0x3f28_f5c3 /* 0.66 */),
        LAYER_SOLID,
    )
}

pub fn push_box_at(
    tris: &mut Vec<RawTri>,
    cx: Scalar,
    cz: Scalar,
    w: Scalar,
    h: Scalar,
    d: Scalar,
    c: Rgb,
)
    ensures
        final(tris)@ == old(tris)@ + box_tris(cx, cz, w, h, d, c),
{
    let x0: Scalar = cx.sub(w.div(scalar(TWO)));
    let x1: Scalar = cx.add(w.div(scalar(TWO)));
    let z0: Scalar = cz.sub(d.div(scalar(TWO)));
    let z1: Scalar = cz.add(d.div(scalar(TWO)));
    let o: Scalar = scalar(ZERO);
    push_quad(
        tris,
        point(x0, h, z0),
        point(x0, h, z1),
        point(x1, h, z1),
        point(x1, h, z0),
        c,
        scalar(ONE),
        LAYER_SOLID,
    );
    push_quad(
        tris,
        point(x1, o, z0),
        point(x1, o, z1),
        point(x1, h, z1),
        point(x1, h, z0),
        c,
        scalar(0x3f51_eb85 /* 0.82 */),
        LAYER_SOLID,
    );
    push_quad(
        tris,
        point(x0, o, z1),
        point(x0, o, z0),
        point(x0, h, z0),
        point(x0, h, z1),
        c,
        scalar(0x3f38_51ec /* 0.72 */),
        LAYER_SOLID,
    );
    push_quad(
        tris,
        point(x1, o, z1),
        point(x0, o, z1),
        point(x0, h, z1),
        point(x1, h, z1),
        c,
        scalar(0x3f61_47ae /* 0.88 */),
        LAYER_SOLID,
    );
    push_quad(
        tris,
        point(x0, o, z0),
        point(x1, o, z0),
        point(x1, h, z0),
        point(x0, h, z0),
        c,
        scalar(0x3f28_f5c3 /* 0.66 */),
        LAYER_SOLID,
    );
    proof {
        assert(tris@ =~= old(tris)@ + box_tris(cx, cz, w, h, d, c));
    }
}

pub open spec fn block_tris(b: BlockView) -> Seq<RawTri> {
    box_tris(b.cx, b.cz, b.w, b.h, b.d, b.color)
}

pub fn push_box(tris: &mut Vec<RawTri>, b: &BlockDef)
    ensures
        final(tris)@ == old(tris)@ + block_tris(b@),
{
    push_box_at(tris, b.cx, b.cz, b.w, b.h, b.d, b.color);
}

pub open spec fn prop_tris(p: PropBox) -> Seq<RawTri> {
    box_tris(p.cx, p.cz, p.w, p.h, p.d, p.color)
}

/// Prop (furniture) box: same shading as buildings.
pub fn push_prop(tris: &mut Vec<RawTri>, p: &PropBox)
    ensures
        final(tris)@ == old(tris)@ + prop_tris(*p),
{
    push_box_at(tris, p.cx, p.cz, p.w, p.h, p.d, p.color);
}

/// Corner `i` of the ring around an agent token.
pub open spec fn ring(a: AgentMarker, i: int) -> Point3 {
    let y = scalar(0x3f99_999a /* 1.2 */);
    if i % 4 == 0 {
        point(a.x.add_spec(scalar(0x3f66_6666 /* 0.9 */)), y, a.z)
    } else if i % 4 == 1 {
        point(a.x, y, a.z.add_spec(scalar(0x3f66_6666 /* 0.9 */)))
    } else if i % 4 == 2 {
        point(a.x.sub_spec(scalar(0x3f66_6666 /* 0.9 */)), y, a.z)
    } else {
        point(a.x, y, a.z.sub_spec(scalar(0x3f66_6666 /* 0.9 */)))
    }
}

/// The upper and lower face over edge `i` of the ring.
pub open spec fn agent_faces(a: AgentMarker, i: int) -> Seq<RawTri> {
    let top = point(a.x, scalar(0x4006_6666 /* 2.1 */), a.z);
    let bottom = point(a.x, scalar(0x3e99_999a /* 0.3 */), a.z);
    seq![
        RawTri { a: top, b: ring(a, i), c: ring(a, i + 1), color: a.color, layer: LAYER_SOLID },
        RawTri {
            a: bottom,
            b: ring(a, i + 1),
            c: ring(a, i),
            color: shaded(a.color, scalar(0x3f33_3333 /* 0.7 */)),
            layer: LAYER_SOLID,
        },
    ]
}

/// Agent token: small octahedron standing on the ground.
pub open spec fn agent_tris(a: AgentMarker) -> Seq<RawTri> {
    agent_faces(a, 0) + agent_faces(a, 1) + agent_faces(a, 2) + agent_faces(a, 3)
}

pub fn push_agent(tris: &mut Vec<RawTri>, a: &AgentMarker)
    ensures
        final(tris)@ == old(tris)@ + agent_tris(*a),
{
    let y: Scalar = scalar(0x3f99_999a /* 1.2 */);
    let top: Point3 = point(a.x, scalar(0x4006_6666 /* 2.1 */), a.z);
    let bottom: Point3 = point(a.x, scalar(0x3e99_999a /* 0.3 */), a.z);
    let dim: Rgb = shade_color(a.color, scalar(0x3f33_3333 /* 0.7 */));
    let corners: [Point3; 5] = [
        point(a.x.add(scalar(0x3f66_6666 /* 0.9 */)), y, a.z),
        point(a.x, y, a.z.add(scalar(0x3f66_6666 /* 0.9 */))),
        point(a.x.sub(scalar(0x3f66_6666 /* 0.9 */)), y, a.z),
        point(a.x, y, a.z.sub(scalar(0x3f66_6666 /* 0.9 */))),
        point(a.x.add(scalar(0x3f66_6666 /* 0.9 */)), y, a.z),
    ];
    let mut i: usize = 0;
    let ghost before = tris@;
    proof {
        assert(before + faces_up_to(*a, 0) =~= before);
    }
    while i < 4
        invariant
            i <= 4,
            top == point(a.x, scalar(0x4006_6666 /* 2.1 */), a.z),
            bottom == point(a.x, scalar(0x3e99_999a /* 0.3 */), a.z),
            dim == shaded(a.color, scalar(0x3f33_3333 /* 0.7 */)),
            forall|j: int| 0 <= j < 5 ==> #[trigger] corners[j] == ring(*a, j),
            tris@ == before + faces_up_to(*a, i as int),
        decreases 4 - i,
    {
        let p: Point3 = corners[i];
        let q: Point3 = corners[i + 1];
        tris.push(RawTri { a: top, b: p, c: q, color: a.color, layer: LAYER_SOLID });
        tris.push(RawTri { a: bottom, b: q, c: p, color: dim, layer: LAYER_SOLID });
        proof {
            assert(corners[i as int] == ring(*a, i as int));
            assert(corners[i + 1] == ring(*a, i + 1));
            assert(tris@ =~= before + faces_up_to(*a, i + 1));
        }
        i += 1;
    }
    proof {
        reveal_with_fuel(faces_up_to, 5);
        assert(faces_up_to(*a, 4) =~= agent_tris(*a));
    }
}

/// Faces over the first `k` edges.
spec fn faces_up_to(a: AgentMarker, k: int) -> Seq<RawTri>
    decreases k,
{
    if k <= 0 {
        Seq::empty()
    } else {
        faces_up_to(a, k - 1) + agent_faces(a, k - 1)
    }
}

/// Planning marker: flat diamond quad just above the ground.
pub open spec fn marker_tris(m: GroundMarker) -> Seq<RawTri> {
    let s = m.size;
    let y = scalar(0x3d75_c28f /* 0.06 */);
    quad(
        point(m.x.sub_spec(s), y, m.z),
        point(m.x, y, m.z.add_spec(s)),
        point(m.x.add_spec(s), y, m.z),
        point(m.x, y, m.z.sub_spec(s)),
        m.color,
        scalar(ONE),
        LAYER_MARKER,
    )
}

pub fn push_marker(tris: &mut Vec<RawTri>, m: &GroundMarker)
    ensures
        final(tris)@ == old(tris)@ + marker_tris(*m),
{
    let s: Scalar = m.size;
    let y: Scalar = scalar(0x3d75_c28f /* 0.06 */);
    push_quad(
        tris,
        point(m.x.sub(s), y, m.z),
        point(m.x, y, m.z.add(s)),
        point(m.x.add(s), y, m.z),
        point(m.x, y, m.z.sub(s)),
        m.color,
        scalar(ONE),
        LAYER_MARKER,
    );
}

/// Sideways offset of a strip along a segment: its left normal, as long as
/// `half`.
pub open spec fn normal(a: Position, b: Position, half: Scalar) -> Position {
    let dx = b.x.sub_spec(a.x);
    let dz = b.z.sub_spec(a.z);
    let len = dx.mul_spec(dx).add_spec(dz.mul_spec(dz)).sqrt_spec().max_spec(scalar(MICRO));
    Position {
        x: dz.neg_spec().div_spec(len).mul_spec(half),
        z: dx.div_spec(len).mul_spec(half),
    }
}

fn side_offset(a: Position, b: Position, half: Scalar) -> (r: Position)
    ensures
        r == normal(a, b, half),
{
    let dx: Scalar = b.x.sub(a.x);
    let dz: Scalar = b.z.sub(a.z);
    let len: Scalar = dx.mul(dx).add(dz.mul(dz)).sqrt().max(scalar(MICRO));
    Position { x: dz.neg().div(len).mul(half), z: dx.div(len).mul(half) }
}

/// Flat strip along a segment.
pub open spec fn ribbon(a: Position, b: Position, width: Scalar, color: Rgb) -> Seq<RawTri> {
    let y = scalar(0x3db8_51ec /* 0.09 */);
    let n = normal(a, b, width.div_spec(scalar(TWO)));
    quad(
        point(a.x.sub_spec(n.x), y, a.z.sub_spec(n.z)),
        point(a.x.add_spec(n.x), y, a.z.add_spec(n.z)),
        point(b.x.add_spec(n.x), y, b.z.add_spec(n.z)),
        point(b.x.sub_spec(n.x), y, b.z.sub_spec(n.z)),
        color,
        scalar(ONE),
        LAYER_PATH,
    )
}

/// Ribbons along the first `k` segments of a path.
pub open spec fn path_tris(p: PathView, k: int) -> Seq<RawTri>
    decreases k,
{
    if k <= 0 {
        Seq::empty()
    } else {
        path_tris(p, k - 1) + ribbon(p.points[k - 1], p.points[k], p.width, p.color)
    }
}

/// Road ribbon: flat quads along each segment. Joints are butt caps; overlap
/// is harmless under painter sorting.
pub fn push_path(tris: &mut Vec<RawTri>, p: &PathLine)
    ensures
        final(tris)@ == old(tris)@ + path_tris(p@, p@.points.len() - 1),
{
    let y: Scalar = scalar(0x3db8_51ec /* 0.09 */);
    let half: Scalar = p.width.div(scalar(TWO));
    let ghost before = tris@;
    let mut k: usize = 0;
    proof {
        assert(before + path_tris(p@, 0) =~= before);
        assert(p.points.len() == 0 ==> before + path_tris(p@, -1) =~= before);
    }
    while p.points.len() > 1 && k < p.points.len() - 1
        invariant
            y == scalar(0x3db8_51ec /* 0.09 */),
            half == p.width.div_spec(scalar(TWO)),
            k == 0 || k <= p.points.len() - 1,
            tris@ == before + path_tris(p@, k as int),
        decreases p.points.len() - k,
    {
        let a: Position = p.points[k];
        let b: Position = p.points[k + 1];
        let n: Position = side_offset(a, b, half);
        push_quad(
            tris,
            point(a.x.sub(n.x), y, a.z.sub(n.z)),
            point(a.x.add(n.x), y, a.z.add(n.z)),
            point(b.x.add(n.x), y, b.z.add(n.z)),
            point(b.x.sub(n.x), y, b.z.sub(n.z)),
            p.color,
            scalar(ONE),
            LAYER_PATH,
        );
        proof {
            assert(tris@ =~= before + path_tris(p@, k + 1));
        }
        k += 1;
    }
}

/// A point of a zone outline, just above the ground.
pub open spec fn zone_point(p: Position) -> Point3 {
    point(p.x, scalar(0x3d8f_5c29 /* 0.07 */), p.z)
}

/// The first `k` triangles of a fan around the first point.
pub open spec fn poly_tris(p: PolyView, k: int) -> Seq<RawTri>
    decreases k,
{
    if k <= 0 {
        Seq::empty()
    } else {
        poly_tris(p, k - 1).push(
            RawTri {
                a: zone_point(p.points[0]),
                b: zone_point(p.points[k]),
                c: zone_point(p.points[k + 1]),
                color: p.color,
                layer: LAYER_POLY,
            },
        )
    }
}

/// Zone fill: triangle fan around the first point. Correct for convex (or
/// roughly convex) zones.
pub fn push_poly(tris: &mut Vec<RawTri>, p: &PathPoly)
    ensures
        final(tris)@ == old(tris)@ + poly_tris(p@, p@.points.len() - 2),
{
    let ghost before = tris@;
    proof {
        assert(p.points.len() < 3 ==> before + poly_tris(p@, p@.points.len() - 2) =~= before);
        assert(before + poly_tris(p@, 0) =~= before);
    }
    if p.points.len() < 3 {
        return;
    }
    let y: Scalar = scalar(0x3d8f_5c29 /* 0.07 */);
    let a: Point3 = point(p.points[0].x, y, p.points[0].z);
    let mut k: usize = 1;
    while k < p.points.len() - 1
        invariant
            y == scalar(0x3d8f_5c29 /* 0.07 */),
            p.points.len() >= 3,
            a == zone_point(p.points[0]),
            1 <= k <= p.points.len() - 1,
            tris@ == before + poly_tris(p@, k - 1),
        decreases p.points.len() - k,
    {
        let b: Point3 = point(p.points[k].x, y, p.points[k].z);
        let c: Point3 = point(p.points[k + 1].x, y, p.points[k + 1].z);
        tris.push(RawTri { a, b, c, color: p.color, layer: LAYER_POLY });
        proof {
            assert(tris@ =~= before + poly_tris(p@, k as int));
        }
        k += 1;
    }
}

/// Built wall: thin vertical box along the segment (sides and top cap).
pub open spec fn wall_tris(w: WallSeg) -> Seq<RawTri> {
    let n = normal(Position { x: w.ax, z: w.az }, Position { x: w.bx, z: w.bz }, scalar(0x3e4c_cccd /* 0.2 */));
    let h = w.height;
    let o = scalar(ZERO);
    quad(
        point(w.ax.add_spec(n.x), o, w.az.add_spec(n.z)),
        point(w.bx.add_spec(n.x), o, w.bz.add_spec(n.z)),
        point(w.bx.add_spec(n.x), h, w.bz.add_spec(n.z)),
        point(w.ax.add_spec(n.x), h, w.az.add_spec(n.z)),
        w.color,
        scalar(0x3f51_eb85 /* 0.82 */),
        LAYER_SOLID,
    ) + quad(
        point(w.bx.sub_spec(n.x), o, w.bz.sub_spec(n.z)),
        point(w.ax.sub_spec(n.x), o, w.az.sub_spec(n.z)),
        point(w.ax.sub_spec(n.x), h, w.az.sub_spec(n.z)),
        point(w.bx.sub_spec(n.x), h, w.bz.sub_spec(n.z)),
        w.color,
        scalar(0x3f28_f5c3 /* 0.66 */),
        LAYER_SOLID,
    ) + quad(
        point(w.ax.sub_spec(n.x), h, w.az.sub_spec(n.z)),
        point(w.ax.add_spec(n.x), h, w.az.add_spec(n.z)),
        point(w.bx.add_spec(n.x), h, w.bz.add_spec(n.z)),
        point(w.bx.sub_spec(n.x), h, w.bz.sub_spec(n.z)),
        w.color,
        scalar(ONE),
        LAYER_SOLID,
    )
}

pub fn push_wall(tris: &mut Vec<RawTri>, w: &WallSeg)
    ensures
        final(tris)@ == old(tris)@ + wall_tris(*w),
{
    let n: Position = side_offset(
        Position { x: w.ax, z: w.az },
        Position { x: w.bx, z: w.bz },
        scalar(0x3e4c_cccd /* 0.2 */),
    );
    let h: Scalar = w.height;
    let o: Scalar = scalar(ZERO);
    push_quad(
        tris,
        point(w.ax.add(n.x), o, w.az.add(n.z)),
        point(w.bx.add(n.x), o, w.bz.add(n.z)),
        point(w.bx.add(n.x), h, w.bz.add(n.z)),
        point(w.ax.add(n.x), h, w.az.add(n.z)),
        w.color,
        scalar(0x3f51_eb85 /* 0.82 */),
        LAYER_SOLID,
    );
    push_quad(
        tris,
        point(w.bx.sub(n.x), o, w.bz.sub(n.z)),
        point(w.ax.sub(n.x), o, w.az.sub(n.z)),
        point(w.ax.sub(n.x), h, w.az.sub(n.z)),
        point(w.bx.sub(n.x), h, w.bz.sub(n.z)),
        w.color,
        scalar(0x3f28_f5c3 /* 0.66 */),
        LAYER_SOLID,
    );
    push_quad(
        tris,
        point(w.ax.sub(n.x), h, w.az.sub(n.z)),
        point(w.ax.add(n.x), h, w.az.add(n.z)),
        point(w.bx.add(n.x), h, w.bz.add(n.z)),
        point(w.bx.sub(n.x), h, w.bz.sub(n.z)),
        w.color,
        scalar(ONE),
        LAYER_SOLID,
    );
    proof {
        assert(tris@ =~= old(tris)@ + wall_tris(*w));
    }
}

} // verus!
