//! What the canvas shows: every visible corner at its place on the screen.

use super::clip::{clipped, seen, Matrix, Point4, ViewTri};
use super::draw::{
    buffer, drawn_after, law_buffer_size, pieces_in, projected, screen_tris, sorted_in, ScreenTri,
};
use super::shapes::{Point3, RawTri};
use super::Rgb;
use crate::scalar::arith::abs_int;
use crate::scalar::bounds::{
    lemma_product_error, lemma_product_minus_one, lemma_quotient_error, lemma_sum_with_zero,
    lemma_within_product, lemma_within_quotient, lemma_within_sum, lemma_within_weakens, PRECISION,
    TINY,
};
use crate::scalar::consts::{ONE, ZERO};
use crate::scalar::convert::lemma_unit;
use crate::scalar::monotone::{lemma_product_monotone, lemma_quotient_monotone};
use crate::scalar::order::{lemma_zero_product, lemma_zero_sum};
use crate::scalar::{scalar, unit, Scalar};
use crate::sim::laws::distance::lemma_sum_close;
use vstd::arithmetic::power2::{lemma2_to64, lemma_pow2_adds, pow2};
use vstd::prelude::*;

verus! {

/// Six numbers from place `at` on: the screen position of a corner in view
/// space, from left to right, from low to high and into the depth, each divided
/// by the distance, and then red, green and blue.
pub open spec fn shows_corner(
    out: Seq<Scalar>,
    at: int,
    p: Point4,
    color: Rgb,
    proj: Matrix,
) -> bool {
    let clip = proj.applied(p);
    &&& 0 <= at && at + 6 <= out.len()
    &&& out[at] == clip.x.div_spec(clip.w)
    &&& out[at + 1] == clip.y.div_spec(clip.w)
    &&& out[at + 2] == clip.z.div_spec(clip.w)
    &&& out[at + 3] == color.r
    &&& out[at + 4] == color.g
    &&& out[at + 5] == color.b
}

/// Triangle `i` of the buffer is a piece in view space, corner by corner.
pub open spec fn shows_piece(
    out: Seq<Scalar>,
    i: int,
    piece: ViewTri,
    color: Rgb,
    proj: Matrix,
) -> bool {
    &&& shows_corner(out, 18 * i, piece.a, color, proj)
    &&& shows_corner(out, 18 * i + 6, piece.b, color, proj)
    &&& shows_corner(out, 18 * i + 12, piece.c, color, proj)
}

/// All corners of a piece lie before the eye.
pub open spec fn is_before_the_eye(piece: ViewTri, proj: Matrix) -> bool {
    !proj.applied(piece.a).w.le_spec(scalar(ZERO)) && !proj.applied(piece.b).w.le_spec(
        scalar(ZERO),
    ) && !proj.applied(piece.c).w.le_spec(scalar(ZERO))
}

/// A triangle on screen is piece `m` of triangle `k`.
spec fn comes_from(
    t: ScreenTri,
    tris: Seq<RawTri>,
    view: Matrix,
    proj: Matrix,
    k: int,
    m: int,
) -> bool {
    0 <= m < clipped(tris[k], view).len() && projected(
        clipped(tris[k], view)[m],
        tris[k],
        proj,
    ) == Some(t)
}

proof fn lemma_buffer_places(tris: Seq<ScreenTri>, k: int, i: int)
    requires
        0 <= i < k <= tris.len(),
    ensures
        ({
            let out = buffer(tris, k);
            let t = tris[i];
            &&& out.len() == 18 * k
            &&& out[18 * i] == t.a.x && out[18 * i + 1] == t.a.y && out[18 * i + 2] == t.a.z
            &&& out[18 * i + 6] == t.b.x && out[18 * i + 7] == t.b.y && out[18 * i + 8] == t.b.z
            &&& out[18 * i + 12] == t.c.x && out[18 * i + 13] == t.c.y && out[18 * i + 14] == t.c.z
            &&& out[18 * i + 3] == t.color.r && out[18 * i + 4] == t.color.g
            &&& out[18 * i + 5] == t.color.b && out[18 * i + 9] == t.color.r
            &&& out[18 * i + 10] == t.color.g && out[18 * i + 11] == t.color.b
            &&& out[18 * i + 15] == t.color.r && out[18 * i + 16] == t.color.g
            &&& out[18 * i + 17] == t.color.b
        }),
    decreases k,
{
    law_buffer_size(tris, k);
    law_buffer_size(tris, k - 1);
    if i < k - 1 {
        lemma_buffer_places(tris, k - 1, i);
        let before = buffer(tris, k - 1);
        let out = buffer(tris, k);
        assert forall|j: int| 0 <= j < before.len() implies out[j] == before[j] by {}
    }
}

proof fn lemma_sorted_members(s: Seq<ScreenTri>, x: ScreenTri, y: ScreenTri)
    ensures
        sorted_in(s, x).contains(y) == (y == x || s.contains(y)),
        sorted_in(s, x).len() == s.len() + 1,
    decreases s.len(),
{
    let r = sorted_in(s, x);
    if s.len() > 0 && drawn_after(s.last(), x) {
        let t = s.drop_last();
        lemma_sorted_members(t, x, y);
        let q = sorted_in(t, x);
        assert(r == q.push(s.last()));
        if q.contains(y) {
            let k = choose|k: int| 0 <= k < q.len() && q[k] == y;
            assert(r[k] == y);
        }
        if s.contains(y) {
            let k = choose|k: int| 0 <= k < s.len() && s[k] == y;
            if k < t.len() {
                assert(t[k] == y);
            } else {
                assert(r[r.len() - 1] == y);
            }
        }
        if t.contains(y) {
            let k = choose|k: int| 0 <= k < t.len() && t[k] == y;
            assert(s[k] == y);
        }
        if r.contains(y) {
            let k = choose|k: int| 0 <= k < r.len() && r[k] == y;
            if k < q.len() {
                assert(q[k] == y);
            } else {
                assert(s[s.len() - 1] == y);
            }
        }
    } else {
        if s.contains(y) {
            let k = choose|k: int| 0 <= k < s.len() && s[k] == y;
            assert(r[k] == y);
        }
        assert(r[r.len() - 1] == x);
        if r.contains(y) {
            let k = choose|k: int| 0 <= k < r.len() && r[k] == y;
            if k < s.len() {
                assert(s[k] == y);
            }
        }
    }
}

proof fn lemma_pieces_members(
    s: Seq<ScreenTri>,
    pieces: Seq<ViewTri>,
    raw: RawTri,
    proj: Matrix,
    k: int,
    y: ScreenTri,
)
    requires
        0 <= k <= pieces.len(),
    ensures
        pieces_in(s, pieces, raw, proj, k).contains(y) == (s.contains(y) || exists|m: int|
            0 <= m < k && projected(#[trigger] pieces[m], raw, proj) == Some(y)),
        pieces_in(s, pieces, raw, proj, k).len() == s.len() + shown_pieces(pieces, proj, k),
    decreases k,
{
    if k > 0 {
        lemma_pieces_members(s, pieces, raw, proj, k - 1, y);
        let before = pieces_in(s, pieces, raw, proj, k - 1);
        if let Some(t) = projected(pieces[k - 1], raw, proj) {
            lemma_sorted_members(before, t, y);
        }
        if exists|m: int| 0 <= m < k - 1 && projected(#[trigger] pieces[m], raw, proj) == Some(y) {
            let m = choose|m: int|
                0 <= m < k - 1 && projected(#[trigger] pieces[m], raw, proj) == Some(y);
            assert(0 <= m < k);
        }
    }
}

/// How many of the first `k` pieces lie before the eye.
pub open spec fn shown_pieces(pieces: Seq<ViewTri>, proj: Matrix, k: int) -> nat
    decreases k,
{
    if k <= 0 {
        0
    } else {
        shown_pieces(pieces, proj, k - 1) + if is_before_the_eye(pieces[k - 1], proj) {
            1nat
        } else {
            0
        }
    }
}

/// How many pieces of the first `k` triangles lie before the eye.
pub open spec fn shown_count(tris: Seq<RawTri>, view: Matrix, proj: Matrix, k: int) -> nat
    decreases k,
{
    if k <= 0 {
        0
    } else {
        shown_count(tris, view, proj, k - 1) + shown_pieces(
            clipped(tris[k - 1], view),
            proj,
            clipped(tris[k - 1], view).len() as int,
        )
    }
}

proof fn lemma_screen_members(
    tris: Seq<RawTri>,
    view: Matrix,
    proj: Matrix,
    n: int,
    y: ScreenTri,
)
    requires
        0 <= n <= tris.len(),
    ensures
        screen_tris(tris, view, proj, n).contains(y) == exists|k: int, m: int|
            0 <= k < n && #[trigger] comes_from(y, tris, view, proj, k, m),
        screen_tris(tris, view, proj, n).len() == shown_count(tris, view, proj, n),
    decreases n,
{
    if n > 0 {
        lemma_screen_members(tris, view, proj, n - 1, y);
        let pieces = clipped(tris[n - 1], view);
        lemma_pieces_members(
            screen_tris(tris, view, proj, n - 1),
            pieces,
            tris[n - 1],
            proj,
            pieces.len() as int,
            y,
        );
        if exists|k: int, m: int|
            0 <= k < n && #[trigger] comes_from(y, tris, view, proj, k, m) {
            let (k, m) = choose|k: int, m: int|
                0 <= k < n && #[trigger] comes_from(y, tris, view, proj, k, m);
            if k == n - 1 {
                assert(projected(pieces[m], tris[n - 1], proj) == Some(y));
            } else {
                assert(0 <= k < n - 1 && comes_from(y, tris, view, proj, k, m));
            }
        }
        if exists|m: int|
            0 <= m < pieces.len() && projected(#[trigger] pieces[m], tris[n - 1], proj) == Some(
                y,
            ) {
            let m = choose|m: int|
                0 <= m < pieces.len() && projected(#[trigger] pieces[m], tris[n - 1], proj)
                    == Some(y);
            assert(comes_from(y, tris, view, proj, n - 1, m));
        }
        if exists|k: int, m: int|
            0 <= k < n - 1 && #[trigger] comes_from(y, tris, view, proj, k, m) {
            let (k, m) = choose|k: int, m: int|
                0 <= k < n - 1 && #[trigger] comes_from(y, tris, view, proj, k, m);
            assert(0 <= k < n && comes_from(y, tris, view, proj, k, m));
        }
    }
}

/// Each triangle of the buffer shows a piece of some triangle of the scene that
/// lies before the eye, at its place on the screen and in that triangle's
/// colour.
pub proof fn law_buffers_show_the_scene(tris: Seq<RawTri>, view: Matrix, proj: Matrix, i: int)
    requires
        0 <= i < screen_tris(tris, view, proj, tris.len() as int).len(),
    ensures
        ({
            let shown = screen_tris(tris, view, proj, tris.len() as int);
            let out = buffer(shown, shown.len() as int);
            exists|k: int, m: int|
                0 <= k < tris.len() && 0 <= m < clipped(tris[k], view).len() && is_before_the_eye(
                    clipped(tris[k], view)[m],
                    proj,
                ) && #[trigger] shows_piece(
                    out,
                    i,
                    clipped(tris[k], view)[m],
                    tris[k].color,
                    proj,
                )
        }),
{
    let n = tris.len() as int;
    let shown = screen_tris(tris, view, proj, n);
    let t = shown[i];
    lemma_screen_members(tris, view, proj, n, t);
    assert(shown.contains(t));
    let (k, m) = choose|k: int, m: int|
        0 <= k < n && #[trigger] comes_from(t, tris, view, proj, k, m);
    lemma_buffer_places(shown, shown.len() as int, i);
    let out = buffer(shown, shown.len() as int);
    assert(shows_piece(out, i, clipped(tris[k], view)[m], tris[k].color, proj));
}

/// Nothing that is to be seen is left out, and nothing is shown twice: every
/// piece of every triangle that lies before the eye is shown, and the buffer
/// has as many triangles as there are such pieces.
pub proof fn law_everything_visible_is_shown(
    tris: Seq<RawTri>,
    view: Matrix,
    proj: Matrix,
    k: int,
    m: int,
)
    requires
        0 <= k < tris.len(),
        0 <= m < clipped(tris[k], view).len(),
        is_before_the_eye(clipped(tris[k], view)[m], proj),
    ensures
        ({
            let shown = screen_tris(tris, view, proj, tris.len() as int);
            let out = buffer(shown, shown.len() as int);
            &&& out.len() == 18 * shown_count(tris, view, proj, tris.len() as int)
            &&& exists|i: int|
                0 <= i < shown.len() && #[trigger] shows_piece(
                    out,
                    i,
                    clipped(tris[k], view)[m],
                    tris[k].color,
                    proj,
                )
        }),
{
    let n = tris.len() as int;
    let shown = screen_tris(tris, view, proj, n);
    let t = projected(clipped(tris[k], view)[m], tris[k], proj)->0;
    assert(comes_from(t, tris, view, proj, k, m));
    lemma_screen_members(tris, view, proj, n, t);
    let i = choose|i: int| 0 <= i < shown.len() && shown[i] == t;
    lemma_buffer_places(shown, shown.len() as int, i);
    let out = buffer(shown, shown.len() as int);
    assert(shows_piece(out, i, clipped(tris[k], view)[m], tris[k].color, proj));
}

/// A plain perspective: it scales to the right by `sx` and upwards by `sy`, and
/// divides by the distance along the view.
pub open spec fn is_plain_perspective(proj: Matrix, sx: Scalar, sy: Scalar) -> bool {
    &&& proj.x.x == sx && proj.y.y == sy
    &&& sx.within(20) && sy.within(20) && sx.num() > 0 && sy.num() > 0
    &&& proj.x.y.is_zero_spec() && proj.x.w.is_zero_spec()
    &&& proj.y.x.is_zero_spec() && proj.y.w.is_zero_spec()
    &&& proj.z.x.is_zero_spec() && proj.z.y.is_zero_spec()
    &&& proj.z.w == scalar(0xbf80_0000 /* -1 */)
    &&& proj.w.x.is_zero_spec() && proj.w.y.is_zero_spec() && proj.w.w.is_zero_spec()
}

/// A point in view space, not far away and at least a quarter of a unit ahead.
pub open spec fn is_ahead_of_the_eye(p: Point4) -> bool {
    p.x.within(19) && p.y.within(19) && p.z.within(19) && p.w.within(19) && -4 * p.z.num()
        >= unit()
}

/// The clip coordinates of a point under a plain perspective.
proof fn lemma_plain(proj: Matrix, sx: Scalar, sy: Scalar, p: Point4)
    requires
        is_plain_perspective(proj, sx, sy),
        is_ahead_of_the_eye(p),
    ensures
        ({
            let c = proj.applied(p);
            &&& c.x.is_finite_spec() && c.x.num() == sx.mul_spec(p.x).num()
            &&& c.y.is_finite_spec() && c.y.num() == sy.mul_spec(p.y).num()
            &&& c.w.is_finite_spec() && c.w.num() == -p.z.num()
            &&& sx.mul_spec(p.x).is_finite_spec() && sy.mul_spec(p.y).is_finite_spec()
        }),
{
    lemma_within_product(sx, p.x, 20, 19);
    lemma_within_product(sy, p.y, 20, 19);
    let a = proj.x.scaled(p.x);
    let b = proj.y.scaled(p.y);
    let c = proj.z.scaled(p.z);
    let d = proj.w.scaled(p.w);
    lemma_zero_product(proj.y.x, p.y);
    lemma_zero_product(proj.z.x, p.z);
    lemma_zero_product(proj.w.x, p.w);
    lemma_sum_with_zero(a.x, b.x);
    lemma_sum_with_zero(a.x.add_spec(b.x), c.x);
    lemma_sum_with_zero(a.x.add_spec(b.x).add_spec(c.x), d.x);
    lemma_zero_product(proj.x.y, p.x);
    lemma_zero_product(proj.z.y, p.z);
    lemma_zero_product(proj.w.y, p.w);
    lemma_sum_with_zero(b.y, a.y);
    lemma_sum_with_zero(a.y.add_spec(b.y), c.y);
    lemma_sum_with_zero(a.y.add_spec(b.y).add_spec(c.y), d.y);
    lemma_zero_product(proj.x.w, p.x);
    lemma_zero_product(proj.y.w, p.y);
    lemma_zero_product(proj.w.w, p.w);
    lemma_product_minus_one(p.z);
    lemma_zero_sum(a.w, b.w);
    lemma_sum_with_zero(c.w, a.w.add_spec(b.w));
    lemma_sum_with_zero(a.w.add_spec(b.w).add_spec(c.w), d.w);
}

/// Of two points at the same depth, the one farther to the right is drawn no
/// farther to the left, and the higher one no lower.
pub proof fn law_right_is_right_and_up_is_up(
    out: Seq<Scalar>,
    at: int,
    to: int,
    p: Point4,
    q: Point4,
    c: Rgb,
    d: Rgb,
    proj: Matrix,
    sx: Scalar,
    sy: Scalar,
)
    requires
        is_plain_perspective(proj, sx, sy),
        is_ahead_of_the_eye(p),
        is_ahead_of_the_eye(q),
        p.z == q.z,
        shows_corner(out, at, p, c, proj),
        shows_corner(out, to, q, d, proj),
    ensures
        p.x.num() <= q.x.num() ==> out[at].num() <= out[to].num(),
        p.y.num() <= q.y.num() ==> out[at + 1].num() <= out[to + 1].num(),
{
    lemma_plain(proj, sx, sy, p);
    lemma_plain(proj, sx, sy, q);
    lemma_unit();
    let a = proj.applied(p);
    let b = proj.applied(q);
    assert(a.w.pattern() == b.w.pattern()) by {
        crate::scalar::round::lemma_magnitude_increases(a.w.pattern(), b.w.pattern());
        crate::scalar::round::lemma_magnitude_increases(b.w.pattern(), a.w.pattern());
    }
    assert(a.w == b.w);
    if p.x.num() <= q.x.num() {
        lemma_product_monotone(p.x, q.x, sx);
        lemma_quotient_monotone(a.x, b.x, a.w);
    }
    if p.y.num() <= q.y.num() {
        lemma_product_monotone(p.y, q.y, sy);
        lemma_quotient_monotone(a.y, b.y, a.w);
    }
}

/// A quotient of a product, up to rounding.
proof fn lemma_scaled_quotient(s: Scalar, x: Scalar, c: Scalar, w: Scalar)
    requires
        s.is_finite_spec(),
        x.is_finite_spec(),
        s.mul_spec(x).is_finite_spec(),
        c.is_finite_spec(),
        c.num() == s.mul_spec(x).num(),
        w.is_finite_spec(),
        w.num() > 0,
        c.div_spec(w).is_finite_spec(),
    ensures
        abs_int(c.div_spec(w).num() * w.num() - s.num() * x.num()) * PRECISION <= 3 * abs_int(
            s.num() * x.num(),
        ) + 2 * TINY * unit() + TINY * w.num(),
{
    lemma_product_error(s, x);
    lemma_quotient_error(c, w);
    lemma_unit();
    let u = unit() as int;
    let cu = c.num() * u;
    assert(abs_int(c.num()) * u == abs_int(cu)) by (nonlinear_arith)
        requires
            cu == c.num() * u,
            u > 0,
    ;
    lemma_two_errors(
        c.div_spec(w).num() * w.num(),
        cu,
        s.num() * x.num(),
        TINY * w.num(),
        TINY * u,
    );
    assert(2 * TINY * unit() == 2 * (TINY * u)) by (nonlinear_arith)
        requires
            u == unit(),
    ;
}

/// Two errors in a row.
proof fn lemma_two_errors(q: int, c: int, s: int, v: int, w: int)
    requires
        abs_int(q - c) * PRECISION <= abs_int(c) + v,
        abs_int(c - s) * PRECISION <= abs_int(s) + w,
        v >= 0,
        w >= 0,
    ensures
        abs_int(q - s) * PRECISION <= 3 * abs_int(s) + 2 * w + v,
{
}

/// A point shows where it stands: its screen position times its distance is
/// its position across the view times the scale, to the right and upwards, up
/// to rounding.
pub proof fn law_points_show_where_they_stand(
    out: Seq<Scalar>,
    at: int,
    p: Point4,
    c: Rgb,
    proj: Matrix,
    sx: Scalar,
    sy: Scalar,
)
    requires
        is_plain_perspective(proj, sx, sy),
        is_ahead_of_the_eye(p),
        shows_corner(out, at, p, c, proj),
    ensures
        abs_int(out[at].num() * -p.z.num() - sx.num() * p.x.num()) * PRECISION <= 3 * abs_int(
            sx.num() * p.x.num(),
        ) + 2 * TINY * unit() + TINY * -p.z.num(),
        abs_int(out[at + 1].num() * -p.z.num() - sy.num() * p.y.num()) * PRECISION <= 3 * abs_int(
            sy.num() * p.y.num(),
        ) + 2 * TINY * unit() + TINY * -p.z.num(),
{
    lemma_plain(proj, sx, sy, p);
    lemma_unit();
    lemma2_to64();
    lemma_within_product(sx, p.x, 20, 19);
    lemma_within_product(sy, p.y, 20, 19);
    let clip = proj.applied(p);
    lemma_pow2_adds(2, 39);
    let n = clip.w.num();
    assert(pow2(39) * unit() <= pow2(41) * n) by (nonlinear_arith)
        requires
            pow2(41) == 4 * pow2(39),
            4 * n >= unit(),
    ;
    lemma_within_quotient(clip.x, clip.w, 41);
    lemma_within_quotient(clip.y, clip.w, 41);
    lemma_scaled_quotient(sx, p.x, clip.x, clip.w);
    lemma_scaled_quotient(sy, p.y, clip.y, clip.w);
}

/// One row of a matrix: four products, summed.
pub open spec fn exact_row(m: (Scalar, Scalar, Scalar, Scalar), p: Point4) -> int {
    m.0.num() * p.x.num() + m.1.num() * p.y.num() + m.2.num() * p.z.num() + m.3.num() * p.w.num()
}

/// Sizes of the four products.
pub open spec fn row_size(m: (Scalar, Scalar, Scalar, Scalar), p: Point4) -> nat {
    abs_int(m.0.num() * p.x.num()) + abs_int(m.1.num() * p.y.num()) + abs_int(
        m.2.num() * p.z.num(),
    ) + abs_int(m.3.num() * p.w.num())
}

/// The result of a row is right up to rounding.
pub open spec fn is_row(r: Scalar, m: (Scalar, Scalar, Scalar, Scalar), p: Point4) -> bool {
    r.is_finite_spec() && abs_int(r.num() * unit() - exact_row(m, p)) * 0x4_0000 <= row_size(m, p)
        + 0x80_0000 * unit()
}

proof fn lemma_row(a: Scalar, b: Scalar, c: Scalar, d: Scalar, p: Point4)
    requires
        a.within(25),
        b.within(25),
        c.within(25),
        d.within(25),
        p.x.within(25),
        p.y.within(25),
        p.z.within(25),
        p.w.within(25),
    ensures
        is_row(
            a.mul_spec(p.x).add_spec(b.mul_spec(p.y)).add_spec(c.mul_spec(p.z)).add_spec(
                d.mul_spec(p.w),
            ),
            (a, b, c, d),
            p,
        ),
{
    lemma_unit();
    let u = unit() as int;
    let x = a.mul_spec(p.x);
    let y = b.mul_spec(p.y);
    let z = c.mul_spec(p.z);
    let w = d.mul_spec(p.w);
    lemma_within_product(a, p.x, 25, 25);
    lemma_within_product(b, p.y, 25, 25);
    lemma_within_product(c, p.z, 25, 25);
    lemma_within_product(d, p.w, 25, 25);
    lemma_product_error(a, p.x);
    lemma_product_error(b, p.y);
    lemma_product_error(c, p.z);
    lemma_product_error(d, p.w);
    let s = x.add_spec(y);
    let t = s.add_spec(z);
    let r = t.add_spec(w);
    lemma_within_sum(x, y, 50);
    lemma_within_weakens(z, 50, 51);
    lemma_within_sum(s, z, 51);
    lemma_within_weakens(w, 50, 52);
    lemma_within_sum(t, w, 52);
    lemma_sum_close(x, y);
    lemma_sum_close(s, z);
    lemma_sum_close(t, w);
    lemma_times_unit(s.num(), x.num() + y.num());
    lemma_times_unit(t.num(), s.num() + z.num());
    lemma_times_unit(r.num(), t.num() + w.num());
    let xu = x.num() * u;
    let yu = y.num() * u;
    let zu = z.num() * u;
    let wu = w.num() * u;
    let su = s.num() * u;
    let tu = t.num() * u;
    assert((x.num() + y.num()) * u == xu + yu) by (nonlinear_arith)
        requires
            xu == x.num() * u,
            yu == y.num() * u,
    ;
    assert((s.num() + z.num()) * u == su + zu) by (nonlinear_arith)
        requires
            su == s.num() * u,
            zu == z.num() * u,
    ;
    assert((t.num() + w.num()) * u == tu + wu) by (nonlinear_arith)
        requires
            tu == t.num() * u,
            wu == w.num() * u,
    ;
    lemma_row_errors(
        seq![a.num() * p.x.num(), b.num() * p.y.num(), c.num() * p.z.num(), d.num() * p.w.num()],
        seq![xu, yu, zu, wu],
        su,
        tu,
        r.num() * u,
        TINY * u,
    );
}

/// The errors of four products and three sums.
#[verifier::rlimit(60)]
proof fn lemma_row_errors(e: Seq<int>, r: Seq<int>, s: int, t: int, v: int, small: int)
    requires
        e.len() == 4,
        r.len() == 4,
        small >= 0,
        abs_int(r[0] - e[0]) * PRECISION <= abs_int(e[0]) + small,
        abs_int(r[1] - e[1]) * PRECISION <= abs_int(e[1]) + small,
        abs_int(r[2] - e[2]) * PRECISION <= abs_int(e[2]) + small,
        abs_int(r[3] - e[3]) * PRECISION <= abs_int(e[3]) + small,
        abs_int(s - (r[0] + r[1])) * PRECISION <= 3 * abs_int(r[0] + r[1]),
        abs_int(t - (s + r[2])) * PRECISION <= 3 * abs_int(s + r[2]),
        abs_int(v - (t + r[3])) * PRECISION <= 3 * abs_int(t + r[3]),
    ensures
        abs_int(v - (e[0] + e[1] + e[2] + e[3])) * 0x4_0000 <= abs_int(e[0]) + abs_int(e[1])
            + abs_int(e[2]) + abs_int(e[3]) + small,
{
    let n = (abs_int(e[0]) + abs_int(e[1]) + abs_int(e[2]) + abs_int(e[3])) as int;
    let (a, b, c, d) = (e[0], e[1], e[2], e[3]);
    lemma_triangle(a, b);
    lemma_triangle(a + b, c);
    lemma_triangle(a + b + c, d);
    lemma_add_error(r[0], a, r[1], b, s, n, abs_int(a) + small, abs_int(b) + small);
    lemma_add_error(s, a + b, r[2], c, t, n, 5 * n + 4 * small, abs_int(c) + small);
    lemma_add_error(t, a + b + c, r[3], d, v, n, 15 * n + 10 * small, abs_int(d) + small);
    assert(abs_int(v - (a + b + c + d)) * PRECISION <= 35 * n + 22 * small);
}

proof fn lemma_triangle(x: int, y: int)
    ensures
        abs_int(x + y) <= abs_int(x) + abs_int(y),
{
}

/// The error of a sum of two numbers that are off.
proof fn lemma_add_error(a: int, x: int, b: int, y: int, s: int, n: int, e: int, f: int)
    requires
        abs_int(a - x) * PRECISION <= e,
        abs_int(b - y) * PRECISION <= f,
        abs_int(s - (a + b)) * PRECISION <= 3 * abs_int(a + b),
        abs_int(x + y) <= n,
    ensures
        abs_int(s - (x + y)) * PRECISION <= 3 * n + 2 * (e + f),
{
}

/// A rounding error in units.
proof fn lemma_times_unit(r: int, s: int)
    requires
        abs_int(r - s) * PRECISION <= 3 * abs_int(s),
    ensures
        abs_int(r * unit() - s * unit()) * PRECISION <= 3 * abs_int(s * unit()),
{
    lemma_unit();
    let u = unit() as int;
    let e = abs_int(r - s) as int;
    let v = abs_int(s) as int;
    assert(abs_int(r * u - s * u) == e * u) by (nonlinear_arith)
        requires
            e == abs_int(r - s),
            u > 0,
    ;
    assert(abs_int(s * u) == v * u) by (nonlinear_arith)
        requires
            v == abs_int(s),
            u > 0,
    ;
    assert(e * u * PRECISION <= 3 * (v * u)) by (nonlinear_arith)
        requires
            e * PRECISION <= 3 * v,
            u > 0,
    ;
}

/// A matrix applies to a point row by row: each coordinate of the result is
/// the sum of the four coordinates, times the entries of that row, up to
/// rounding.
pub proof fn law_matrices_apply_row_by_row(m: Matrix, p: Point4)
    requires
        m.x.within(25),
        m.y.within(25),
        m.z.within(25),
        m.w.within(25),
        p.within(25),
    ensures
        is_row(m.applied(p).x, (m.x.x, m.y.x, m.z.x, m.w.x), p),
        is_row(m.applied(p).y, (m.x.y, m.y.y, m.z.y, m.w.y), p),
        is_row(m.applied(p).z, (m.x.z, m.y.z, m.z.z, m.w.z), p),
        is_row(m.applied(p).w, (m.x.w, m.y.w, m.z.w, m.w.w), p),
{
    lemma_row(m.x.x, m.y.x, m.z.x, m.w.x, p);
    lemma_row(m.x.y, m.y.y, m.z.y, m.w.y, p);
    lemma_row(m.x.z, m.y.z, m.z.z, m.w.z, p);
    lemma_row(m.x.w, m.y.w, m.z.w, m.w.w, p);
}

/// A point of the world is seen as a place: the view matrix turns it and moves
/// it.
pub proof fn law_views_turn_and_move(view: Matrix, p: Point3)
    requires
        view.x.within(25),
        view.y.within(25),
        view.z.within(25),
        view.w.within(25),
        p.x.within(25),
        p.y.within(25),
        p.z.within(25),
    ensures
        ({
            let at = Point4 { x: p.x, y: p.y, z: p.z, w: scalar(ONE) };
            let r = seen(view, p);
            &&& is_row(r.x, (view.x.x, view.y.x, view.z.x, view.w.x), at)
            &&& is_row(r.y, (view.x.y, view.y.y, view.z.y, view.w.y), at)
            &&& is_row(r.z, (view.x.z, view.y.z, view.z.z, view.w.z), at)
            &&& is_row(r.w, (view.x.w, view.y.w, view.z.w, view.w.w), at)
        }),
{
    lemma2_to64();
    crate::scalar::bounds::lemma_within_pattern(scalar(ONE), 25);
    law_matrices_apply_row_by_row(view, Point4 { x: p.x, y: p.y, z: p.z, w: scalar(ONE) });
}

} // verus!
