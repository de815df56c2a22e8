//! Distances on the ground are Euclidean, up to rounding.

use crate::scalar::arith::abs_int;
use crate::scalar::bounds::{
    lemma_difference_error, lemma_product, lemma_product_error, lemma_sum, lemma_sum_error,
    lemma_within_product, lemma_within_sum, PRECISION, TINY,
};
use crate::scalar::convert::lemma_unit;
use crate::scalar::monotone::{lemma_add_commutes, lemma_square_of_opposite};
use crate::scalar::{unit, Scalar};
use crate::sim::agent::Position;
use crate::sim::systems::walk::dist2;
use vstd::prelude::*;

verus! {

/// Square of the exact distance between two points, in squared units of two to
/// the minus 149.
pub open spec fn exact_dist2(a: Position, b: Position) -> int {
    (a.x.num() - b.x.num()) * (a.x.num() - b.x.num()) + (a.z.num() - b.z.num()) * (a.z.num()
        - b.z.num())
}

/// Both coordinates are at most two to the power `k`.
pub open spec fn lies_within(p: Position, k: nat) -> bool {
    p.x.within(k) && p.z.within(k)
}

/// A point with its coordinates exchanged.
pub open spec fn flipped(p: Position) -> Position {
    Position { x: p.z, z: p.x }
}

/// Differences are rounded by few parts of themselves.
pub proof fn lemma_difference_close(a: Scalar, b: Scalar)
    requires
        a.is_finite_spec(),
        b.is_finite_spec(),
        a.sub_spec(b).is_finite_spec(),
    ensures
        abs_int(a.sub_spec(b).num() - (a.num() - b.num())) * PRECISION <= 3 * abs_int(
            a.num() - b.num(),
        ),
{
    lemma_difference_error(a, b);
    let e = abs_int(a.sub_spec(b).num() - (a.num() - b.num())) as int;
    if e >= 1 {
        assert(e * PRECISION >= PRECISION);
    }
}

/// Sums are rounded by few parts of themselves.
pub proof fn lemma_sum_close(a: Scalar, b: Scalar)
    requires
        a.is_finite_spec(),
        b.is_finite_spec(),
        a.add_spec(b).is_finite_spec(),
    ensures
        abs_int(a.add_spec(b).num() - (a.num() + b.num())) * PRECISION <= 3 * abs_int(
            a.num() + b.num(),
        ),
{
    lemma_sum_error(a, b);
    let e = abs_int(a.add_spec(b).num() - (a.num() + b.num())) as int;
    if e >= 1 {
        assert(e * PRECISION >= PRECISION);
    }
}

/// The rounded square of a rounded difference.
pub proof fn lemma_square_close(a: Scalar, b: Scalar, k: nat)
    requires
        a.within(k),
        b.within(k),
        2 * (k + 1) <= 100,
    ensures
        ({
            let s = a.sub_spec(b).mul_spec(a.sub_spec(b));
            let d = a.num() - b.num();
            &&& s.within((2 * (k + 1)) as nat)
            &&& s.num() >= 0
            &&& abs_int(s.num() * unit() - d * d) * PRECISION <= 11 * (d * d) + TINY * unit()
        }),
{
    let r = a.sub_spec(b);
    lemma_within_sum(a, b, k);
    lemma_difference_close(a, b);
    lemma_within_product(r, r, k + 1, k + 1);
    lemma_product(r, r);
    lemma_product_error(r, r);
    lemma_unit();
    let d = a.num() - b.num();
    let x = r.num();
    let e = abs_int(x - d) as int;
    let v = abs_int(d) as int;
    assert(x * x >= 0) by (nonlinear_arith);
    assert(v * v == d * d) by (nonlinear_arith)
        requires
            v == d || v == -d,
    ;
    assert(e <= v) by (nonlinear_arith)
        requires
            e * PRECISION <= 3 * v,
            e >= 0,
    ;
    // |x * x - d * d| <= e * (2 * v + e)
    let g = abs_int(x * x - d * d) as int;
    assert(g <= e * (3 * v)) by (nonlinear_arith)
        requires
            g == x * x - d * d || g == d * d - x * x,
            e == x - d || e == d - x,
            v == d || v == -d,
            0 <= e <= v,
    ;
    assert(e * (3 * v) * PRECISION <= 9 * (v * v)) by (nonlinear_arith)
        requires
            e * PRECISION <= 3 * v,
            v >= 0,
    ;
    assert(g * PRECISION <= 9 * (v * v)) by (nonlinear_arith)
        requires
            g <= e * (3 * v),
            e * (3 * v) * PRECISION <= 9 * (v * v),
    ;
    assert(g <= v * v);
}

/// Squared distances are Euclidean: off by at most one part in two to the 19,
/// and by two of the smallest steps.
pub proof fn law_distance_is_euclidean(a: Position, b: Position)
    requires
        lies_within(a, 16),
        lies_within(b, 16),
    ensures
        dist2(a.x, a.z, b).within(35),
        dist2(a.x, a.z, b).num() >= 0,
        abs_int(dist2(a.x, a.z, b).num() * unit() - exact_dist2(a, b)) * 0x8_0000 <= exact_dist2(
            a,
            b,
        ) + 0x10_0000 * unit(),
{
    lemma_unit();
    lemma_square_close(a.x, b.x, 16);
    lemma_square_close(a.z, b.z, 16);
    let dx = a.x.sub_spec(b.x);
    let dz = a.z.sub_spec(b.z);
    let p = dx.mul_spec(dx);
    let q = dz.mul_spec(dz);
    let r = p.add_spec(q);
    lemma_within_sum(p, q, 34);
    lemma_sum(p, q);
    lemma_sum_close(p, q);
    let u = unit() as int;
    let x = (a.x.num() - b.x.num()) * (a.x.num() - b.x.num());
    let z = (a.z.num() - b.z.num()) * (a.z.num() - b.z.num());
    assert(x >= 0 && z >= 0) by (nonlinear_arith)
        requires
            x == (a.x.num() - b.x.num()) * (a.x.num() - b.x.num()),
            z == (a.z.num() - b.z.num()) * (a.z.num() - b.z.num()),
    ;
    let pu = p.num() * u;
    let qu = q.num() * u;
    let ru = r.num() * u;
    let f = abs_int(r.num() - (p.num() + q.num())) as int;
    assert(abs_int(ru - (pu + qu)) == f * u) by (nonlinear_arith)
        requires
            f == abs_int(r.num() - (p.num() + q.num())),
            pu == p.num() * u,
            qu == q.num() * u,
            ru == r.num() * u,
            u > 0,
    ;
    assert(f * u * PRECISION <= 3 * (pu + qu)) by (nonlinear_arith)
        requires
            f * PRECISION <= 3 * (p.num() + q.num()),
            pu == p.num() * u,
            qu == q.num() * u,
            u > 0,
    ;
}

/// Exchanging the axes, or the two points, changes no distance.
pub proof fn law_distance_is_symmetric(a: Position, b: Position)
    ensures
        dist2(a.z, a.x, flipped(b)) == dist2(a.x, a.z, b),
        dist2(b.x, b.z, a) == dist2(a.x, a.z, b),
{
    let dx = a.x.sub_spec(b.x);
    let dz = a.z.sub_spec(b.z);
    lemma_add_commutes(dx.mul_spec(dx), dz.mul_spec(dz));
    lemma_square_of_opposite(a.x, b.x);
    lemma_square_of_opposite(a.z, b.z);
}

} // verus!
