//! The lattice of cells over the ground.

use super::distance::{lemma_difference_close, lemma_sum_close};
use crate::scalar::arith::abs_int;
use crate::scalar::bounds::{
    lemma_product_error, lemma_quotient_error, lemma_unit_large, lemma_within_product,
    lemma_within_quotient, lemma_within_sum, lemma_within_weakens, PRECISION, TINY,
};
use crate::scalar::consts::HALF;
use crate::scalar::convert::{lemma_representable, lemma_unit};
use crate::scalar::exact::{lemma_floor_splits, lemma_from_int, lemma_whole_to_int};
use crate::scalar::{magnitude, scalar, unit, Scalar};
use crate::sim::agent::Position;
use crate::sim::grid::Lattice;
use super::gain::lemma_half_num;
use vstd::arithmetic::power2::{lemma2_to64, pow2};
use vstd::prelude::*;

verus! {

/// Cells of at most 1024 units and at least one part in 1024 of one, over
/// ground of at most 2048 units.
pub open spec fn is_usual(lattice: Lattice) -> bool {
    lattice.cell.within(10) && 1024 * lattice.cell.num() >= unit() && lattice.half.within(11)
}

proof fn lemma_small_int(c: int)
    requires
        0 <= c < 0x1_0000,
    ensures
        Scalar::from_int_spec(c).within(16),
        Scalar::from_int_spec(c).num() == c * unit(),
{
    lemma2_to64();
    lemma_unit();
    if c == 0 {
        reveal(Scalar::from_int_spec);
        lemma_representable(0);
        assert(magnitude(0) == 0);
        assert(0 * unit() == 0);
    } else {
        lemma_from_int(c as nat);
        assert(c * unit() <= 0x1_0000 * unit()) by (nonlinear_arith)
            requires
                0 <= c < 0x1_0000,
        ;
        assert(c * unit() >= 0) by (nonlinear_arith)
            requires
                0 <= c,
        ;
    }
}

/// Columns and rows follow one another at the distance of one cell: twice the
/// place of the center of the `c`-th is the odd number of half cells from the
/// edge, up to rounding.
pub proof fn law_cells_follow_one_another(lattice: Lattice, c: int)
    requires
        is_usual(lattice),
        0 <= c < 0x1_0000,
    ensures
        lattice.coordinate(c).within(28),
        abs_int(
            2 * lattice.coordinate(c).num() - ((2 * c + 1) * lattice.cell.num() - 2
                * lattice.half.num()),
        ) * PRECISION <= 16 * ((2 * c + 1) * lattice.cell.num()) + 16 * abs_int(
            lattice.half.num(),
        ) + 0x1_0000_0000,
{
    lemma_unit();
    lemma_unit_large();
    lemma2_to64();
    lemma_small_int(c);
    lemma_half_num();
    let u = unit() as int;
    let k = Scalar::from_int_spec(c);
    let cell = lattice.cell;
    let h = scalar(HALF);
    let m = k.mul_spec(cell);
    lemma_within_product(k, cell, 16, 10);
    lemma_product_error(k, cell);
    let g = cell.mul_spec(h);
    assert(h.within(0));
    lemma_within_product(cell, h, 10, 0);
    lemma_product_error(cell, h);
    let s = m.add_spec(g);
    lemma_within_weakens(g, 10, 26);
    lemma_within_sum(m, g, 26);
    lemma_sum_close(m, g);
    let r = s.sub_spec(lattice.half);
    lemma_within_weakens(lattice.half, 11, 27);
    lemma_within_sum(s, lattice.half, 27);
    lemma_difference_close(s, lattice.half);
    let n = cell.num();
    let cn = c * n;
    assert(k.num() * n == cn * u) by (nonlinear_arith)
        requires
            k.num() == c * u,
            cn == c * n,
    ;
    assert(cn >= 0) by (nonlinear_arith)
        requires
            c >= 0,
            n >= 0,
            cn == c * n,
    ;
    let e = abs_int(m.num() - cn) as int;
    assert(abs_int(m.num() * u - cn * u) == e * u) by (nonlinear_arith)
        requires
            e == abs_int(m.num() - cn),
            u > 0,
    ;
    assert(abs_int(cn * u) == cn * u) by (nonlinear_arith)
        requires
            cn >= 0,
            u > 0,
    ;
    assert(e * PRECISION <= cn + TINY) by (nonlinear_arith)
        requires
            e * u * PRECISION <= cn * u + TINY * u,
            u > 0,
    ;
    let f = abs_int(2 * g.num() - n) as int;
    assert(2 * abs_int(g.num() * u - n * h.num()) == f * u) by (nonlinear_arith)
        requires
            f == abs_int(2 * g.num() - n),
            u == 2 * h.num(),
            u > 0,
    ;
    assert(2 * abs_int(n * h.num()) == n * u) by (nonlinear_arith)
        requires
            u == 2 * h.num(),
            n >= 0,
            u > 0,
    ;
    assert(f * PRECISION <= n + 2 * TINY) by (nonlinear_arith)
        requires
            f * u * PRECISION <= n * u + 2 * (TINY * u),
            u > 0,
    ;
    assert((2 * c + 1) * n == 2 * cn + n) by (nonlinear_arith)
        requires
            cn == c * n,
    ;
}

/// A point lies in the cell that it is counted to: along each axis the cell
/// begins no farther than the point and ends behind it, up to rounding.
pub proof fn law_points_lie_in_their_cells(lattice: Lattice, p: Position)
    requires
        is_usual(lattice),
        p.x.within(11),
        p.z.within(11),
    ensures
        holds_place(lattice, lattice.cell_of(p).0, p.x),
        holds_place(lattice, lattice.cell_of(p).1, p.z),
{
    lemma_cell_of(lattice, p.x);
    lemma_cell_of(lattice, p.z);
}

/// The `k`-th cell holds a place along an axis, up to rounding.
pub open spec fn holds_place(lattice: Lattice, k: int, x: Scalar) -> bool {
    let w = x.num() + lattice.half.num();
    let slack = 8 * abs_int(w) + 0x4_0000_0000;
    &&& k * lattice.cell.num() * PRECISION <= w * PRECISION + slack
    &&& (k + 1) * lattice.cell.num() * PRECISION >= w * PRECISION - slack
}

proof fn lemma_cell_of(lattice: Lattice, x: Scalar)
    requires
        is_usual(lattice),
        x.within(11),
    ensures
        holds_place(
            lattice,
            x.add_spec(lattice.half).div_spec(lattice.cell).floor_spec().to_int_spec(
                i32::MIN as int,
                i32::MAX as int,
            ),
            x,
        ),
{
    lemma_unit();
    lemma_unit_large();
    lemma2_to64();
    let u = unit() as int;
    let cell = lattice.cell;
    let n = cell.num();
    let s = x.add_spec(lattice.half);
    lemma_within_sum(x, lattice.half, 11);
    lemma_sum_close(x, lattice.half);
    let q = s.div_spec(cell);
    assert(abs_int(s.num()) <= pow2(22) * abs_int(n));
    lemma_within_quotient(s, cell, 22);
    lemma_quotient_error(s, cell);
    lemma_floor_splits(q);
    vstd::arithmetic::div_mod::lemma_fundamental_div_mod(q.num(), u);
    vstd::arithmetic::div_mod::lemma_mod_bound(q.num(), u);
    let k = q.num() / u;
    assert(-0x80_0000 <= k <= 0x80_0000) by (nonlinear_arith)
        requires
            q.num() == u * k + q.num() % u,
            0 <= q.num() % u < u,
            -0x40_0000 * u <= q.num() <= 0x40_0000 * u,
            u > 0,
    ;
    lemma_whole_to_int(q.floor_spec(), k, i32::MIN as int, i32::MAX as int);
    let qn = q.num() * n;
    let su = s.num() * u;
    let kn = k * n;
    assert(kn * u <= qn && qn <= (kn + n) * u) by (nonlinear_arith)
        requires
            q.num() == u * k + q.num() % u,
            0 <= q.num() % u < u,
            qn == q.num() * n,
            kn == k * n,
            n > 0,
    ;
    assert(abs_int(s.num()) * u == abs_int(su)) by (nonlinear_arith)
        requires
            su == s.num() * u,
            u > 0,
    ;
    assert(TINY * n <= 0x2_0000_0000 * u);
    // kn * u <= qn <= su + error
    let a = abs_int(s.num()) as int;
    assert((kn * PRECISION) * u <= (s.num() * PRECISION + a + 0x2_0000_0000) * u
        && (s.num() * PRECISION - a - 0x2_0000_0000) * u <= ((kn + n) * PRECISION) * u)
        by (nonlinear_arith)
        requires
            kn * u <= qn,
            qn <= (kn + n) * u,
            abs_int(qn - su) * PRECISION <= a * u + 0x2_0000_0000 * u,
            su == s.num() * u,
            u > 0,
    ;
    assert(kn * PRECISION <= s.num() * PRECISION + a + 0x2_0000_0000) by (nonlinear_arith)
        requires
            (kn * PRECISION) * u <= (s.num() * PRECISION + a + 0x2_0000_0000) * u,
            u > 0,
    ;
    assert(s.num() * PRECISION - a - 0x2_0000_0000 <= (kn + n) * PRECISION) by (nonlinear_arith)
        requires
            (s.num() * PRECISION - a - 0x2_0000_0000) * u <= ((kn + n) * PRECISION) * u,
            u > 0,
    ;
    assert((k + 1) * n == kn + n) by (nonlinear_arith)
        requires
            kn == k * n,
    ;
}

} // verus!
