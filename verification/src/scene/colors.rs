//! What wears which colour.

use super::Rgb;
use super::shapes::{
    agent_tris, box_tris, marker_tris, path_tris, poly_tris, wall_tris, AgentMarker, GroundMarker,
    PathView, PolyView, WallSeg,
};
use crate::scalar::{magnitude, scalar, unit, Scalar};
use crate::scalar::consts::ONE;
use crate::scalar::convert::lemma_unit;
use crate::scalar::exact::lemma_exact;
use crate::scalar::order::lemma_one;
use crate::scalar::round::lemma_magnitude_increases;
use vstd::prelude::*;

verus! {

/// A colour is another one, dimmed alike in red, green and blue.
pub open spec fn is_toned(c: Rgb, base: Rgb, tone: Scalar) -> bool {
    &&& c.r == base.r.mul_spec(tone)
    &&& c.g == base.g.mul_spec(tone)
    &&& c.b == base.b.mul_spec(tone)
}

/// A tone that dims.
pub open spec fn is_dim(tone: Scalar) -> bool {
    scalar(0x3f00_0000).lt_spec(tone) && tone.lt_spec(scalar(ONE))
}

proof fn lemma_dim(bits: u32)
    requires
        0x3f00_0000 < bits < 0x3f80_0000,
    ensures
        is_dim(scalar(bits)),
{
    lemma_magnitude_increases(0x3f00_0000, bits as nat);
    lemma_magnitude_increases(bits as nat, 0x3f80_0000);
}

/// A colour in full is the colour itself.
pub proof fn law_full_tones_change_nothing(c: Rgb, d: Rgb)
    requires
        is_toned(d, c, scalar(ONE)),
        c.r.is_finite_spec(),
        c.g.is_finite_spec(),
        c.b.is_finite_spec(),
    ensures
        d.r.num() == c.r.num() && d.g.num() == c.g.num() && d.b.num() == c.b.num(),
{
    lemma_times_one(c.r);
    lemma_times_one(c.g);
    lemma_times_one(c.b);
}

proof fn lemma_times_one(a: Scalar)
    requires
        a.is_finite_spec(),
    ensures
        a.mul_spec(scalar(ONE)).num() == a.num(),
{
    lemma_one();
    lemma_unit();
    let o = scalar(ONE);
    crate::scalar::bounds::lemma_product(a, o);
    let u = unit() as int;
    let m = magnitude(a.pattern());
    assert(a.num() * u < 0 <==> a.num() < 0) by (nonlinear_arith)
        requires
            u > 0,
    ;
    assert(crate::scalar::arith::abs_int(a.num() * u) == m * u) by (nonlinear_arith)
        requires
            m == crate::scalar::arith::abs_int(a.num()),
            u > 0,
    ;
    lemma_exact(a.pattern(), m * unit(), unit());
}

/// The top of a box wears its colour in full; each side is dimmer, both
/// triangles of it alike, and no two sides are the same.
pub proof fn law_boxes_are_lit_from_above(
    cx: Scalar,
    cz: Scalar,
    w: Scalar,
    h: Scalar,
    d: Scalar,
    c: Rgb,
    i: int,
    j: int,
)
    requires
        0 <= i < 4,
        0 <= j < 4,
    ensures
        ({
            let s = box_tris(cx, cz, w, h, d, c);
            &&& is_toned(s[0].color, c, scalar(ONE)) && is_toned(s[1].color, c, scalar(ONE))
            &&& s[0].a.y == h && s[0].b.y == h && s[0].c.y == h && s[1].c.y == h
            &&& exists|t: Scalar, v: Scalar| #[trigger]
                is_toned(s[2 + 2 * i].color, c, t) && is_toned(s[3 + 2 * i].color, c, t)
                    && #[trigger] is_toned(s[2 + 2 * j].color, c, v) && is_dim(t) && is_dim(v) && (
                i != j ==> t != v)
        }),
{
    lemma_dim(0x3f51_eb85);
    lemma_dim(0x3f38_51ec);
    lemma_dim(0x3f61_47ae);
    lemma_dim(0x3f28_f5c3);
    let s = box_tris(cx, cz, w, h, d, c);
    let t = side_tone(i);
    let v = side_tone(j);
    assert(is_toned(s[2 + 2 * i].color, c, t) && is_toned(s[3 + 2 * i].color, c, t));
    assert(is_toned(s[2 + 2 * j].color, c, v));
}

spec fn side_tone(i: int) -> Scalar {
    if i == 0 {
        scalar(0x3f51_eb85)
    } else if i == 1 {
        scalar(0x3f38_51ec)
    } else if i == 2 {
        scalar(0x3f61_47ae)
    } else {
        scalar(0x3f28_f5c3)
    }
}

/// The upper half of an agent's token wears the agent's colour, and the lower
/// half a dimmer one.
pub proof fn law_tokens_wear_their_color(a: AgentMarker, i: int)
    requires
        0 <= i < 4,
    ensures
        ({
            let s = agent_tris(a);
            &&& s[2 * i].color == a.color
            &&& exists|t: Scalar| #[trigger] is_toned(s[2 * i + 1].color, a.color, t) && is_dim(t)
        }),
{
    lemma_dim(0x3f33_3333);
    let s = agent_tris(a);
    assert(is_toned(s[2 * i + 1].color, a.color, scalar(0x3f33_3333)));
}

/// Markers wear their colour in full.
pub proof fn law_markers_wear_their_color(m: GroundMarker, i: int)
    requires
        0 <= i < 2,
    ensures
        is_toned(marker_tris(m)[i].color, m.color, scalar(ONE)),
{
}

/// Roads wear their colour in full, from the first stretch to the last.
pub proof fn law_roads_wear_their_color(p: PathView, k: int, i: int)
    requires
        0 <= k,
        0 <= i < path_tris(p, k).len(),
    ensures
        is_toned(path_tris(p, k)[i].color, p.color, scalar(ONE)),
    decreases k,
{
    if k > 0 {
        let before = path_tris(p, k - 1);
        if i < before.len() {
            law_roads_wear_their_color(p, k - 1, i);
            assert(path_tris(p, k)[i] == before[i]);
        }
    }
}

/// Zones wear their colour.
pub proof fn law_zones_wear_their_color(p: PolyView, k: int, i: int)
    requires
        0 <= k,
        0 <= i < poly_tris(p, k).len(),
    ensures
        poly_tris(p, k)[i].color == p.color,
    decreases k,
{
    if k > 0 {
        let before = poly_tris(p, k - 1);
        if i < before.len() {
            law_zones_wear_their_color(p, k - 1, i);
            assert(poly_tris(p, k)[i] == before[i]);
        }
    }
}

/// The cap of a wall wears its colour in full, and its two sides are dimmer.
pub proof fn law_walls_wear_their_color(w: WallSeg, i: int)
    requires
        0 <= i < 2,
    ensures
        ({
            let s = wall_tris(w);
            &&& is_toned(s[4 + i].color, w.color, scalar(ONE))
            &&& exists|t: Scalar| #[trigger] is_toned(s[i].color, w.color, t) && is_dim(t)
            &&& exists|t: Scalar| #[trigger] is_toned(s[2 + i].color, w.color, t) && is_dim(t)
        }),
{
    lemma_dim(0x3f51_eb85);
    lemma_dim(0x3f28_f5c3);
    let s = wall_tris(w);
    assert(is_toned(s[i].color, w.color, scalar(0x3f51_eb85)));
    assert(is_toned(s[2 + i].color, w.color, scalar(0x3f28_f5c3)));
}

} // verus!
