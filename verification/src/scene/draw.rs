//! From shapes to a sorted vertex buffer.

use super::clip::{clip_near, clipped, Matrix, Point4, ViewTri};
use super::shapes::{
    agent_tris, block_tris, marker_tris, path_tris, point, poly_tris, prop_tris, push_agent,
    push_box, push_marker, push_path, push_poly, push_prop, push_quad, push_wall, quad, wall_tris,
    AgentMarker, GroundMarker, PathLine, PathPoly, PathView, Point3, PolyView, PropBox, RawTri,
    WallSeg, LAYER_GRID, LAYER_GROUND,
};
use super::{block_views, blocks, rgb, skyline, BlockDef, BlockView, Rgb};
use crate::scalar::consts::{ONE, ZERO};
use crate::scalar::{scalar, Scalar};
use vstd::prelude::*;

verus! {

/// Half of the ground's size (120).
pub const GROUND_HALF: u32 = 0x42f0_0000;

/// Half of the ground's size, negated (-120).
pub const GROUND_EDGE: u32 = 0xc2f0_0000;

/// Half of the survey grid's size, in units.
pub const GRID_HALF: i64 = 120;

/// Distance between survey lines, in units.
pub const GRID_STEP: i64 = 10;

/// Number of survey lines in each direction.
pub const GRID_LINES: i64 = 25;

/// Everything the canvas shows per frame. Plain data, cheap to rebuild.
#[derive(Debug)]
pub struct ViewportInput {
    pub inspection: bool,
    pub agents: Vec<AgentMarker>,
    pub markers: Vec<GroundMarker>,
    pub paths: Vec<PathLine>,
    pub polys: Vec<PathPoly>,
    pub walls: Vec<WallSeg>,
    pub props: Vec<PropBox>,
}

/// Mathematical content of a [`ViewportInput`].
pub ghost struct ViewportView {
    pub inspection: bool,
    pub agents: Seq<AgentMarker>,
    pub markers: Seq<GroundMarker>,
    pub paths: Seq<PathView>,
    pub polys: Seq<PolyView>,
    pub walls: Seq<WallSeg>,
    pub props: Seq<PropBox>,
}

pub open spec fn path_views(paths: Seq<PathLine>) -> Seq<PathView> {
    paths.map_values(|p: PathLine| p@)
}

pub open spec fn poly_views(polys: Seq<PathPoly>) -> Seq<PolyView> {
    polys.map_values(|p: PathPoly| p@)
}

impl View for ViewportInput {
    type V = ViewportView;

    open spec fn view(&self) -> ViewportView {
        ViewportView {
            inspection: self.inspection,
            agents: self.agents@,
            markers: self.markers@,
            paths: path_views(self.paths@),
            polys: poly_views(self.polys@),
            walls: self.walls@,
            props: self.props@,
        }
    }
}

#[verifier::allow_in_spec]
pub fn grass() -> (c: Rgb)
    returns
        (rgb(0x3f1e_b852 /* 0.62 */, 0x3f38_51ec /* 0.72 */, 0x3ee6_6666 /* 0.45 */)),
{
    rgb(0x3f1e_b852 /* 0.62 */, 0x3f38_51ec /* 0.72 */, 0x3ee6_6666 /* 0.45 */)
}

#[verifier::allow_in_spec]
pub fn grid_line() -> (c: Rgb)
    returns
        (rgb(0x3f0c_cccd /* 0.55 */, 0x3f26_6666 /* 0.65 */, 0x3ec7_ae14 /* 0.39 */)),
{
    rgb(0x3f0c_cccd /* 0.55 */, 0x3f26_6666 /* 0.65 */, 0x3ec7_ae14 /* 0.39 */)
}

/// The ground quad.
pub open spec fn ground_tris() -> Seq<RawTri> {
    let lo = scalar(GROUND_EDGE);
    let hi = scalar(GROUND_HALF);
    let o = scalar(ZERO);
    quad(
        point(lo, o, lo),
        point(lo, o, hi),
        point(hi, o, hi),
        point(hi, o, lo),
        grass(),
        scalar(ONE),
        LAYER_GROUND,
    )
}

/// The two survey lines at step `i`, as thin quads.
pub open spec fn grid_pair(i: int) -> Seq<RawTri> {
    let k = Scalar::from_int_spec(GRID_STEP * i - GRID_HALF);
    let t = scalar(0x3e00_0000 /* 0.125 */);
    let y = scalar(0x3ca3_d70a /* 0.02 */);
    let lo = scalar(GROUND_EDGE);
    let hi = scalar(GROUND_HALF);
    quad(
        point(k.sub_spec(t), y, lo),
        point(k.sub_spec(t), y, hi),
        point(k.add_spec(t), y, hi),
        point(k.add_spec(t), y, lo),
        grid_line(),
        scalar(ONE),
        LAYER_GRID,
    ) + quad(
        point(lo, y, k.sub_spec(t)),
        point(lo, y, k.add_spec(t)),
        point(hi, y, k.add_spec(t)),
        point(hi, y, k.sub_spec(t)),
        grid_line(),
        scalar(ONE),
        LAYER_GRID,
    )
}

/// Triangles of the first `k` things of a kind.
pub open spec fn all_tris<A>(items: Seq<A>, tris: spec_fn(A) -> Seq<RawTri>, k: int) -> Seq<RawTri>
    decreases k,
{
    if k <= 0 {
        Seq::empty()
    } else {
        all_tris(items, tris, k - 1) + tris(items[k - 1])
    }
}

/// Triangles of all things of a kind.
pub open spec fn every_tri<A>(items: Seq<A>, tris: spec_fn(A) -> Seq<RawTri>) -> Seq<RawTri> {
    all_tris(items, tris, items.len() as int)
}

/// The whole city: ground, survey grid, skyline, agents, markers, paths,
/// zones, walls and props.
pub open spec fn city_tris(input: ViewportView) -> Seq<RawTri> {
    ground_tris() + every_tri(Seq::new(GRID_LINES as nat, |i: int| i), |i: int| grid_pair(i))
        + every_tri(skyline(), |b: BlockView| block_tris(b)) + every_tri(
        input.agents,
        |a: AgentMarker| agent_tris(a),
    ) + every_tri(input.markers, |m: GroundMarker| marker_tris(m)) + every_tri(
        input.paths,
        |p: PathView| path_tris(p, p.points.len() - 1),
    ) + every_tri(input.polys, |p: PolyView| poly_tris(p, p.points.len() - 2)) + every_tri(
        input.walls,
        |w: WallSeg| wall_tris(w),
    ) + every_tri(input.props, |p: PropBox| prop_tris(p))
}

/// A triangle on screen: normalised device coordinates, colour, view-space
/// distance (larger is farther) and painter layer.
#[derive(Clone, Copy, Debug, PartialEq, Eq, Structural)]
pub struct ScreenTri {
    pub a: Point3,
    pub b: Point3,
    pub c: Point3,
    pub color: Rgb,
    pub depth: Scalar,
    pub layer: u8,
}

/// The perspective divide.
pub open spec fn divided(p: Point4) -> Point3 {
    point(p.x.div_spec(p.w), p.y.div_spec(p.w), p.z.div_spec(p.w))
}

fn divide(p: Point4) -> (r: Point3)
    ensures
        r == divided(p),
{
    point(p.x.div(p.w), p.y.div(p.w), p.z.div(p.w))
}

/// Mean view-space distance of a triangle.
pub open spec fn depth_of(t: ViewTri) -> Scalar {
    t.a.z.add_spec(t.b.z).add_spec(t.c.z).neg_spec().div_spec(scalar(0x4040_0000 /* 3 */))
}

/// A clipped triangle projected, where all its corners lie before the eye.
pub open spec fn projected(t: ViewTri, raw: RawTri, proj: Matrix) -> Option<ScreenTri> {
    let a = proj.applied(t.a);
    let b = proj.applied(t.b);
    let c = proj.applied(t.c);
    let zero = scalar(ZERO);
    if a.w.le_spec(zero) || b.w.le_spec(zero) || c.w.le_spec(zero) {
        None
    } else {
        Some(
            ScreenTri {
                a: divided(a),
                b: divided(b),
                c: divided(c),
                color: raw.color,
                depth: depth_of(t),
                layer: raw.layer,
            },
        )
    }
}

fn project(t: &ViewTri, raw: &RawTri, proj: &Matrix) -> (r: Option<ScreenTri>)
    ensures
        r == projected(*t, *raw, *proj),
{
    let a: Point4 = proj.apply(t.a);
    let b: Point4 = proj.apply(t.b);
    let c: Point4 = proj.apply(t.c);
    let zero: Scalar = scalar(ZERO);
    if a.w.le(zero) || b.w.le(zero) || c.w.le(zero) {
        return None;
    }
    Some(
        ScreenTri {
            a: divide(a),
            b: divide(b),
            c: divide(c),
            color: raw.color,
            depth: t.a.z.add(t.b.z).add(t.c.z).neg().div(scalar(0x4040_0000 /* 3 */)),
            layer: raw.layer,
        },
    )
}

/// `y` is drawn after `x`: it lies in a later layer, or in the same one and
/// nearer.
pub open spec fn drawn_after(y: ScreenTri, x: ScreenTri) -> bool {
    x.layer < y.layer || (x.layer == y.layer && y.depth.lt_spec(x.depth))
}

/// `x` put behind everything that is not drawn after it.
pub open spec fn sorted_in(s: Seq<ScreenTri>, x: ScreenTri) -> Seq<ScreenTri>
    decreases s.len(),
{
    if s.len() > 0 && drawn_after(s.last(), x) {
        sorted_in(s.drop_last(), x).push(s.last())
    } else {
        s.push(x)
    }
}

/// The first `k` pieces of a cut triangle, projected and sorted in.
pub open spec fn pieces_in(
    s: Seq<ScreenTri>,
    pieces: Seq<ViewTri>,
    raw: RawTri,
    proj: Matrix,
    k: int,
) -> Seq<ScreenTri>
    decreases k,
{
    if k <= 0 {
        s
    } else {
        let before = pieces_in(s, pieces, raw, proj, k - 1);
        match projected(pieces[k - 1], raw, proj) {
            Some(t) => sorted_in(before, t),
            None => before,
        }
    }
}

/// The first `k` triangles clipped, projected and sorted: by layer, within a
/// layer from far to near, equals in their order.
pub open spec fn screen_tris(tris: Seq<RawTri>, view: Matrix, proj: Matrix, k: int) -> Seq<
    ScreenTri,
>
    decreases k,
{
    if k <= 0 {
        Seq::empty()
    } else {
        let pieces = clipped(tris[k - 1], view);
        pieces_in(
            screen_tris(tris, view, proj, k - 1),
            pieces,
            tris[k - 1],
            proj,
            pieces.len() as int,
        )
    }
}

/// Position and colour of one corner.
pub open spec fn corner(p: Point3, c: Rgb) -> Seq<Scalar> {
    seq![p.x, p.y, p.z, c.r, c.g, c.b]
}

/// The first `k` triangles as interleaved positions and colours.
pub open spec fn buffer(tris: Seq<ScreenTri>, k: int) -> Seq<Scalar>
    decreases k,
{
    if k <= 0 {
        Seq::empty()
    } else {
        let t = tris[k - 1];
        buffer(tris, k - 1) + corner(t.a, t.color) + corner(t.b, t.color) + corner(t.c, t.color)
    }
}

proof fn lemma_sorted_in(s: Seq<ScreenTri>, x: ScreenTri, p: int)
    requires
        0 <= p <= s.len(),
        forall|i: int| p <= i < s.len() ==> drawn_after(#[trigger] s[i], x),
        p > 0 ==> !drawn_after(s[p - 1], x),
    ensures
        sorted_in(s, x) == s.insert(p, x),
    decreases s.len(),
{
    if p < s.len() {
        assert(drawn_after(s[s.len() - 1], x));
        assert forall|i: int| p <= i < s.drop_last().len() implies drawn_after(
            #[trigger] s.drop_last()[i],
            x,
        ) by {
            assert(drawn_after(s[i], x));
        }
        lemma_sorted_in(s.drop_last(), x, p);
        assert(s.drop_last().insert(p, x).push(s.last()) =~= s.insert(p, x));
    } else {
        assert(s.push(x) =~= s.insert(p, x));
    }
}

fn sort_in(s: &mut Vec<ScreenTri>, x: ScreenTri)
    ensures
        final(s)@ == sorted_in(old(s)@, x),
{
    let mut p: usize = s.len();
    while p > 0 && (x.layer < s[p - 1].layer || (x.layer == s[p - 1].layer && s[p - 1].depth.lt(
        x.depth,
    )))
        invariant
            p <= s.len(),
            forall|i: int| p <= i < s.len() ==> drawn_after(#[trigger] s[i], x),
        decreases p,
    {
        p -= 1;
    }
    proof {
        lemma_sorted_in(s@, x, p as int);
    }
    s.insert(p, x);
}

fn push_corner(out: &mut Vec<Scalar>, p: Point3, c: Rgb)
    ensures
        final(out)@ == old(out)@ + corner(p, c),
{
    out.push(p.x);
    out.push(p.y);
    out.push(p.z);
    out.push(c.r);
    out.push(c.g);
    out.push(c.b);
    proof {
        assert(out@ =~= old(out)@ + corner(p, c));
    }
}

fn push_ground(tris: &mut Vec<RawTri>)
    ensures
        final(tris)@ == old(tris)@ + ground_tris(),
{
    let lo: Scalar = scalar(GROUND_EDGE);
    let hi: Scalar = scalar(GROUND_HALF);
    let o: Scalar = scalar(ZERO);
    push_quad(
        tris,
        point(lo, o, lo),
        point(lo, o, hi),
        point(hi, o, hi),
        point(hi, o, lo),
        grass(),
        scalar(ONE),
        LAYER_GROUND,
    );
}

/// Survey grid as thin quads, so that it survives without lines.
fn push_grid(tris: &mut Vec<RawTri>)
    ensures
        final(tris)@ == old(tris)@ + every_tri(
            Seq::new(GRID_LINES as nat, |i: int| i),
            |i: int| grid_pair(i),
        ),
{
    let ghost steps = Seq::new(GRID_LINES as nat, |i: int| i);
    let ghost pair = |i: int| grid_pair(i);
    let ghost before = tris@;
    let t: Scalar = scalar(0x3e00_0000 /* 0.125 */);
    let y: Scalar = scalar(0x3ca3_d70a /* 0.02 */);
    let lo: Scalar = scalar(GROUND_EDGE);
    let hi: Scalar = scalar(GROUND_HALF);
    let mut i: i64 = 0;
    proof {
        assert(before + all_tris(steps, pair, 0) =~= before);
    }
    while i < GRID_LINES
        invariant
            0 <= i <= GRID_LINES,
            t == scalar(0x3e00_0000 /* 0.125 */),
            y == scalar(0x3ca3_d70a /* 0.02 */),
            lo == scalar(GROUND_EDGE),
            hi == scalar(GROUND_HALF),
            steps == Seq::new(GRID_LINES as nat, |i: int| i),
            pair == (|i: int| grid_pair(i)),
            tris@ == before + all_tris(steps, pair, i as int),
        decreases GRID_LINES - i,
    {
        let k: Scalar = Scalar::from_int(GRID_STEP * i - GRID_HALF);
        push_quad(
            tris,
            point(k.sub(t), y, lo),
            point(k.sub(t), y, hi),
            point(k.add(t), y, hi),
            point(k.add(t), y, lo),
            grid_line(),
            scalar(ONE),
            LAYER_GRID,
        );
        push_quad(
            tris,
            point(lo, y, k.sub(t)),
            point(lo, y, k.add(t)),
            point(hi, y, k.add(t)),
            point(hi, y, k.sub(t)),
            grid_line(),
            scalar(ONE),
            LAYER_GRID,
        );
        proof {
            assert(steps[i as int] == i);
            assert(tris@ =~= before + all_tris(steps, pair, i + 1));
        }
        i += 1;
    }
}

fn push_blocks(tris: &mut Vec<RawTri>)
    ensures
        final(tris)@ == old(tris)@ + every_tri(skyline(), |b: BlockView| block_tris(b)),
{
    let list: Vec<BlockDef> = blocks();
    let ghost f = |b: BlockView| block_tris(b);
    let ghost before = tris@;
    let mut i: usize = 0;
    proof {
        assert(before + all_tris(skyline(), f, 0) =~= before);
    }
    while i < list.len()
        invariant
            block_views(list@) == skyline(),
            list.len() == 7,
            i <= list.len(),
            f == (|b: BlockView| block_tris(b)),
            tris@ == before + all_tris(skyline(), f, i as int),
        decreases list.len() - i,
    {
        assert(block_views(list@)[i as int] == list[i as int]@);
        push_box(tris, &list[i]);
        proof {
            assert(tris@ =~= before + all_tris(skyline(), f, i + 1));
        }
        i += 1;
    }
}

fn push_agents(tris: &mut Vec<RawTri>, agents: &Vec<AgentMarker>)
    ensures
        final(tris)@ == old(tris)@ + every_tri(agents@, |a: AgentMarker| agent_tris(a)),
{
    let ghost f = |a: AgentMarker| agent_tris(a);
    let ghost before = tris@;
    let mut i: usize = 0;
    proof {
        assert(before + all_tris(agents@, f, 0) =~= before);
    }
    while i < agents.len()
        invariant
            i <= agents.len(),
            f == (|a: AgentMarker| agent_tris(a)),
            tris@ == before + all_tris(agents@, f, i as int),
        decreases agents.len() - i,
    {
        push_agent(tris, &agents[i]);
        proof {
            assert(tris@ =~= before + all_tris(agents@, f, i + 1));
        }
        i += 1;
    }
}

fn push_markers(tris: &mut Vec<RawTri>, markers: &Vec<GroundMarker>)
    ensures
        final(tris)@ == old(tris)@ + every_tri(markers@, |m: GroundMarker| marker_tris(m)),
{
    let ghost f = |m: GroundMarker| marker_tris(m);
    let ghost before = tris@;
    let mut i: usize = 0;
    proof {
        assert(before + all_tris(markers@, f, 0) =~= before);
    }
    while i < markers.len()
        invariant
            i <= markers.len(),
            f == (|m: GroundMarker| marker_tris(m)),
            tris@ == before + all_tris(markers@, f, i as int),
        decreases markers.len() - i,
    {
        push_marker(tris, &markers[i]);
        proof {
            assert(tris@ =~= before + all_tris(markers@, f, i + 1));
        }
        i += 1;
    }
}

fn push_paths(tris: &mut Vec<RawTri>, paths: &Vec<PathLine>)
    ensures
        final(tris)@ == old(tris)@ + every_tri(
            path_views(paths@),
            |p: PathView| path_tris(p, p.points.len() - 1),
        ),
{
    let ghost views = path_views(paths@);
    let ghost f = |p: PathView| path_tris(p, p.points.len() - 1);
    let ghost before = tris@;
    let mut i: usize = 0;
    proof {
        assert(before + all_tris(views, f, 0) =~= before);
    }
    while i < paths.len()
        invariant
            i <= paths.len(),
            views == path_views(paths@),
            f == (|p: PathView| path_tris(p, p.points.len() - 1)),
            tris@ == before + all_tris(views, f, i as int),
        decreases paths.len() - i,
    {
        push_path(tris, &paths[i]);
        proof {
            assert(views[i as int] == paths[i as int]@);
            assert(tris@ =~= before + all_tris(views, f, i + 1));
        }
        i += 1;
    }
}

fn push_polys(tris: &mut Vec<RawTri>, polys: &Vec<PathPoly>)
    ensures
        final(tris)@ == old(tris)@ + every_tri(
            poly_views(polys@),
            |p: PolyView| poly_tris(p, p.points.len() - 2),
        ),
{
    let ghost views = poly_views(polys@);
    let ghost f = |p: PolyView| poly_tris(p, p.points.len() - 2);
    let ghost before = tris@;
    let mut i: usize = 0;
    proof {
        assert(before + all_tris(views, f, 0) =~= before);
    }
    while i < polys.len()
        invariant
            i <= polys.len(),
            views == poly_views(polys@),
            f == (|p: PolyView| poly_tris(p, p.points.len() - 2)),
            tris@ == before + all_tris(views, f, i as int),
        decreases polys.len() - i,
    {
        push_poly(tris, &polys[i]);
        proof {
            assert(views[i as int] == polys[i as int]@);
            assert(tris@ =~= before + all_tris(views, f, i + 1));
        }
        i += 1;
    }
}

fn push_walls(tris: &mut Vec<RawTri>, walls: &Vec<WallSeg>)
    ensures
        final(tris)@ == old(tris)@ + every_tri(walls@, |w: WallSeg| wall_tris(w)),
{
    let ghost f = |w: WallSeg| wall_tris(w);
    let ghost before = tris@;
    let mut i: usize = 0;
    proof {
        assert(before + all_tris(walls@, f, 0) =~= before);
    }
    while i < walls.len()
        invariant
            i <= walls.len(),
            f == (|w: WallSeg| wall_tris(w)),
            tris@ == before + all_tris(walls@, f, i as int),
        decreases walls.len() - i,
    {
        push_wall(tris, &walls[i]);
        proof {
            assert(tris@ =~= before + all_tris(walls@, f, i + 1));
        }
        i += 1;
    }
}

fn push_props(tris: &mut Vec<RawTri>, props: &Vec<PropBox>)
    ensures
        final(tris)@ == old(tris)@ + every_tri(props@, |p: PropBox| prop_tris(p)),
{
    let ghost f = |p: PropBox| prop_tris(p);
    let ghost before = tris@;
    let mut i: usize = 0;
    proof {
        assert(before + all_tris(props@, f, 0) =~= before);
    }
    while i < props.len()
        invariant
            i <= props.len(),
            f == (|p: PropBox| prop_tris(p)),
            tris@ == before + all_tris(props@, f, i as int),
        decreases props.len() - i,
    {
        push_prop(tris, &props[i]);
        proof {
            assert(tris@ =~= before + all_tris(props@, f, i + 1));
        }
        i += 1;
    }
}

/// The triangles of the city in world space.
pub fn city_triangles(input: &ViewportInput) -> (r: Vec<RawTri>)
    ensures
        r@ == city_tris(input@),
{
    let mut tris: Vec<RawTri> = Vec::new();
    push_ground(&mut tris);
    proof {
        assert(tris@ =~= ground_tris());
    }
    push_grid(&mut tris);
    push_blocks(&mut tris);
    push_agents(&mut tris, &input.agents);
    push_markers(&mut tris, &input.markers);
    push_paths(&mut tris, &input.paths);
    push_polys(&mut tris, &input.polys);
    push_walls(&mut tris, &input.walls);
    push_props(&mut tris, &input.props);
    tris
}

/// Clip, project and sort triangles for painting.
pub fn sort_tris(tris: &Vec<RawTri>, view: &Matrix, proj: &Matrix) -> (r: Vec<ScreenTri>)
    ensures
        r@ == screen_tris(tris@, *view, *proj, tris.len() as int),
{
    let mut r: Vec<ScreenTri> = Vec::new();
    let mut k: usize = 0;
    proof {
        assert(r@ =~= Seq::empty());
    }
    while k < tris.len()
        invariant
            k <= tris.len(),
            r@ == screen_tris(tris@, *view, *proj, k as int),
        decreases tris.len() - k,
    {
        let raw: RawTri = tris[k];
        let pieces: Vec<ViewTri> = clip_near(&raw, view);
        let ghost before = r@;
        let mut m: usize = 0;
        while m < pieces.len()
            invariant
                m <= pieces.len(),
                r@ == pieces_in(before, pieces@, raw, *proj, m as int),
            decreases pieces.len() - m,
        {
            if let Some(t) = project(&pieces[m], &raw, proj) {
                sort_in(&mut r, t);
            }
            m += 1;
        }
        k += 1;
    }
    r
}

/// Interleaved position and colour buffer (three and three per vertex) in
/// normalised device coordinates, back to front, and the number of triangles.
pub fn build_sorted_tris(input: &ViewportInput, view: &Matrix, proj: &Matrix) -> (r: (
    Vec<Scalar>,
    usize,
))
    ensures
        ({
            let tris = city_tris(input@);
            let shown = screen_tris(tris, *view, *proj, tris.len() as int);
            r.0@ == buffer(shown, shown.len() as int) && r.1 == shown.len()
        }),
{
    let raw: Vec<RawTri> = city_triangles(input);
    let tris: Vec<ScreenTri> = sort_tris(&raw, view, proj);
    let mut out: Vec<Scalar> = Vec::new();
    let mut k: usize = 0;
    proof {
        assert(out@ =~= Seq::empty());
    }
    while k < tris.len()
        invariant
            k <= tris.len(),
            out@ == buffer(tris@, k as int),
        decreases tris.len() - k,
    {
        let t: ScreenTri = tris[k];
        push_corner(&mut out, t.a, t.color);
        push_corner(&mut out, t.b, t.color);
        push_corner(&mut out, t.c, t.color);
        k += 1;
    }
    (out, tris.len())
}

/// No triangle is followed by one of an earlier layer.
pub open spec fn by_layer(s: Seq<ScreenTri>) -> bool {
    forall|i: int, j: int|
        0 <= i < j < s.len() ==> (#[trigger] s[i]).layer <= (#[trigger] s[j]).layer
}

proof fn lemma_layers(s: Seq<ScreenTri>, x: ScreenTri)
    requires
        by_layer(s),
    ensures
        by_layer(sorted_in(s, x)),
        sorted_in(s, x).len() == s.len() + 1,
        forall|i: int|
            0 <= i < sorted_in(s, x).len() ==> (#[trigger] sorted_in(s, x)[i] == x || s.contains(
                sorted_in(s, x)[i],
            )),
    decreases s.len(),
{
    let r = sorted_in(s, x);
    if s.len() > 0 && drawn_after(s.last(), x) {
        let t = s.drop_last();
        assert(by_layer(t)) by {
            assert forall|i: int, j: int| 0 <= i < j < t.len() implies (#[trigger] t[i]).layer <= (
            #[trigger] t[j]).layer by {
                assert(s[i].layer <= s[j].layer);
            }
        }
        lemma_layers(t, x);
        let q = sorted_in(t, x);
        assert forall|i: int| 0 <= i < r.len() implies (#[trigger] r[i] == x || s.contains(r[i])) by {
            if i < q.len() {
                assert(r[i] == q[i]);
                if q[i] != x {
                    let k = choose|k: int| 0 <= k < t.len() && t[k] == q[i];
                    assert(s[k] == q[i]);
                }
            } else {
                assert(s[s.len() - 1] == r[i]);
            }
        }
        assert forall|i: int, j: int| 0 <= i < j < r.len() implies (#[trigger] r[i]).layer <= (
        #[trigger] r[j]).layer by {
            assert(r[i] == q[i]);
            if j < q.len() {
                assert(r[j] == q[j]);
            } else if q[i] != x {
                let k = choose|k: int| 0 <= k < t.len() && t[k] == q[i];
                assert(s[k].layer <= s[s.len() - 1].layer);
            }
        }
    } else {
        assert forall|i: int| 0 <= i < r.len() implies (#[trigger] r[i] == x || s.contains(r[i])) by {
            if i < s.len() {
                assert(s[i] == r[i]);
            }
        }
        assert forall|i: int, j: int| 0 <= i < j < r.len() implies (#[trigger] r[i]).layer <= (
        #[trigger] r[j]).layer by {
            if j == s.len() && i < s.len() - 1 {
                assert(s[i].layer <= s[s.len() - 1].layer);
            }
        }
    }
}

proof fn lemma_pieces_layers(
    s: Seq<ScreenTri>,
    pieces: Seq<ViewTri>,
    raw: RawTri,
    proj: Matrix,
    k: int,
)
    requires
        by_layer(s),
    ensures
        by_layer(pieces_in(s, pieces, raw, proj, k)),
    decreases k,
{
    if k > 0 {
        lemma_pieces_layers(s, pieces, raw, proj, k - 1);
        if let Some(t) = projected(pieces[k - 1], raw, proj) {
            lemma_layers(pieces_in(s, pieces, raw, proj, k - 1), t);
        }
    }
}

/// The ground never covers flat overlays: whatever the camera, everything of
/// an earlier layer is drawn before everything of a later one.
pub proof fn law_layers_stack(tris: Seq<RawTri>, view: Matrix, proj: Matrix, k: int)
    ensures
        by_layer(screen_tris(tris, view, proj, k)),
    decreases k,
{
    if k > 0 {
        law_layers_stack(tris, view, proj, k - 1);
        let pieces = clipped(tris[k - 1], view);
        lemma_pieces_layers(
            screen_tris(tris, view, proj, k - 1),
            pieces,
            tris[k - 1],
            proj,
            pieces.len() as int,
        );
    }
}

/// Nothing is drawn before what it should be drawn after.
pub open spec fn in_painter_order(s: Seq<ScreenTri>) -> bool {
    forall|i: int, j: int| 0 <= i < j < s.len() ==> !drawn_after(#[trigger] s[i], #[trigger] s[j])
}

/// All depths are numbers.
pub open spec fn have_depth(s: Seq<ScreenTri>) -> bool {
    forall|i: int| 0 <= i < s.len() ==> !(#[trigger] s[i]).depth.is_nan_spec()
}

proof fn lemma_painter_order(s: Seq<ScreenTri>, x: ScreenTri)
    requires
        in_painter_order(s),
        have_depth(s),
        !x.depth.is_nan_spec(),
        by_layer(s),
    ensures
        in_painter_order(sorted_in(s, x)),
        have_depth(sorted_in(s, x)),
    decreases s.len(),
{
    lemma_layers(s, x);
    let r = sorted_in(s, x);
    assert(have_depth(r)) by {
        assert forall|i: int| 0 <= i < r.len() implies !(#[trigger] r[i]).depth.is_nan_spec() by {
            assert(r[i] == x || s.contains(r[i]));
        }
    }
    if s.len() > 0 && drawn_after(s.last(), x) {
        let t = s.drop_last();
        assert forall|i: int| 0 <= i < t.len() implies #[trigger] t[i] == s[i] by {}
        lemma_painter_order(t, x);
        lemma_layers(t, x);
        let q = sorted_in(t, x);
        assert forall|i: int, j: int| 0 <= i < j < r.len() implies !drawn_after(
            #[trigger] r[i],
            #[trigger] r[j],
        ) by {
            assert(r[i] == q[i]);
            if j < q.len() {
                assert(r[j] == q[j]);
            } else if q[i] != x {
                let k = choose|k: int| 0 <= k < t.len() && t[k] == q[i];
                assert(!drawn_after(s[k], s[s.len() - 1]));
            }
        }
    } else {
        assert forall|i: int, j: int| 0 <= i < j < r.len() implies !drawn_after(
            #[trigger] r[i],
            #[trigger] r[j],
        ) by {
            assert(r[i] == s[i]);
            if j < s.len() {
                assert(r[j] == s[j]);
            } else {
                let last = s.len() - 1;
                assert(!s[i].depth.is_nan_spec() && !s[last].depth.is_nan_spec());
                if i < last {
                    assert(!drawn_after(s[i], s[last]));
                    assert(s[i].layer <= s[last].layer);
                }
            }
        }
    }
}

proof fn lemma_pieces_order(
    s: Seq<ScreenTri>,
    pieces: Seq<ViewTri>,
    raw: RawTri,
    proj: Matrix,
    k: int,
)
    requires
        in_painter_order(s),
        have_depth(s),
        by_layer(s),
        0 <= k <= pieces.len(),
        forall|m: int| 0 <= m < pieces.len() ==> !depth_of(#[trigger] pieces[m]).is_nan_spec(),
    ensures
        in_painter_order(pieces_in(s, pieces, raw, proj, k)),
        have_depth(pieces_in(s, pieces, raw, proj, k)),
        by_layer(pieces_in(s, pieces, raw, proj, k)),
    decreases k,
{
    lemma_pieces_layers(s, pieces, raw, proj, k);
    if k > 0 {
        lemma_pieces_order(s, pieces, raw, proj, k - 1);
        if let Some(t) = projected(pieces[k - 1], raw, proj) {
            lemma_painter_order(pieces_in(s, pieces, raw, proj, k - 1), t);
        }
    }
}

/// Within a layer the far is drawn before the near, where all depths are
/// numbers.
pub proof fn law_far_before_near(tris: Seq<RawTri>, view: Matrix, proj: Matrix, k: int)
    requires
        0 <= k <= tris.len(),
        forall|i: int, m: int|
            #![trigger clipped(tris[i], view)[m]]
            0 <= i < tris.len() && 0 <= m < clipped(tris[i], view).len() ==> !depth_of(
                clipped(tris[i], view)[m],
            ).is_nan_spec(),
    ensures
        in_painter_order(screen_tris(tris, view, proj, k)),
        have_depth(screen_tris(tris, view, proj, k)),
    decreases k,
{
    law_layers_stack(tris, view, proj, k);
    if k > 0 {
        law_far_before_near(tris, view, proj, k - 1);
        law_layers_stack(tris, view, proj, k - 1);
        let pieces = clipped(tris[k - 1], view);
        assert forall|m: int| 0 <= m < pieces.len() implies !depth_of(
            #[trigger] pieces[m],
        ).is_nan_spec() by {
            assert(!depth_of(clipped(tris[k - 1], view)[m]).is_nan_spec());
        }
        lemma_pieces_order(
            screen_tris(tris, view, proj, k - 1),
            pieces,
            tris[k - 1],
            proj,
            pieces.len() as int,
        );
    }
}

/// A buffer holds eighteen numbers per triangle.
pub proof fn law_buffer_size(tris: Seq<ScreenTri>, k: int)
    requires
        0 <= k,
    ensures
        buffer(tris, k).len() == 18 * k,
    decreases k,
{
    if k > 0 {
        law_buffer_size(tris, k - 1);
    }
}

} // verus!
