//! Operations keep order and do not care about the order of their operands.

use super::arith::{abs_int, is_nearest_root};
use super::bounds::{lemma_difference, lemma_product, lemma_quotient, lemma_root_exists, lemma_sum};
use super::convert::lemma_unit;
use super::order::{lemma_nearest_monotone, lemma_zero_pattern};
use super::round::lemma_magnitude_increases;
use super::{magnitude, unit, Scalar};
use vstd::arithmetic::power2::pow2;
use vstd::prelude::*;

verus! {

pub proof fn lemma_add_commutes(a: Scalar, b: Scalar)
    ensures
        a.add_spec(b) == b.add_spec(a),
{
    reveal(Scalar::add_spec);
}

pub proof fn lemma_mul_commutes(a: Scalar, b: Scalar)
    ensures
        a.mul_spec(b) == b.mul_spec(a),
{
    reveal(Scalar::mul_spec);
    let x = magnitude(a.pattern());
    let y = magnitude(b.pattern());
    assert(x * y == y * x) by (nonlinear_arith);
}

/// The square of a number does not depend on its sign.
pub proof fn lemma_square_of_opposite(a: Scalar, b: Scalar)
    ensures
        a.sub_spec(b).mul_spec(a.sub_spec(b)) == b.sub_spec(a).mul_spec(b.sub_spec(a)),
{
    reveal(Scalar::mul_spec);
    reveal(Scalar::add_spec);
    let x = a.sub_spec(b);
    let y = b.sub_spec(a);
    if a.is_finite_spec() && b.is_finite_spec() {
        lemma_difference(a, b);
        lemma_difference(b, a);
        assert(x.pattern() == y.pattern());
    }
}

/// Values of patterns, signed, are ordered as the exact values that round to
/// them.
proof fn lemma_ordered(x: int, y: int, d: nat, p: nat, q: nat)
    requires
        x <= y,
        d > 0,
        p == super::round::nearest(abs_int(x), d),
        q == super::round::nearest(abs_int(y), d),
    ensures
        (if x < 0 {
            -(magnitude(p) as int)
        } else {
            magnitude(p) as int
        }) <= (if y < 0 {
            -(magnitude(q) as int)
        } else {
            magnitude(q) as int
        }),
{
    if x >= 0 {
        assert(abs_int(x) * d <= abs_int(y) * d) by (nonlinear_arith)
            requires
                0 <= x <= y,
        ;
        lemma_nearest_monotone(abs_int(x), d, abs_int(y), d);
        lemma_magnitude_increases(p, q);
    } else if y < 0 {
        assert(abs_int(y) * d <= abs_int(x) * d) by (nonlinear_arith)
            requires
                x <= y < 0,
        ;
        lemma_nearest_monotone(abs_int(y), d, abs_int(x), d);
        lemma_magnitude_increases(q, p);
    }
}

/// A larger summand gives no smaller sum.
pub proof fn lemma_sum_monotone(a: Scalar, b: Scalar, c: Scalar)
    requires
        a.is_finite_spec(),
        b.is_finite_spec(),
        c.is_finite_spec(),
        a.num() <= b.num(),
    ensures
        !a.add_spec(c).is_nan_spec(),
        !b.add_spec(c).is_nan_spec(),
        a.add_spec(c).num() <= b.add_spec(c).num(),
        c.add_spec(a).num() <= c.add_spec(b).num(),
        !c.add_spec(a).is_nan_spec(),
        !c.add_spec(b).is_nan_spec(),
{
    lemma_sum(a, c);
    lemma_sum(b, c);
    lemma_add_commutes(a, c);
    lemma_add_commutes(b, c);
    lemma_ordered(
        a.num() + c.num(),
        b.num() + c.num(),
        1,
        a.add_spec(c).pattern(),
        b.add_spec(c).pattern(),
    );
}

/// A larger minuend gives no smaller difference.
pub proof fn lemma_difference_monotone(a: Scalar, b: Scalar, c: Scalar)
    requires
        a.is_finite_spec(),
        b.is_finite_spec(),
        c.is_finite_spec(),
        a.num() <= b.num(),
    ensures
        !a.sub_spec(c).is_nan_spec(),
        !b.sub_spec(c).is_nan_spec(),
        a.sub_spec(c).num() <= b.sub_spec(c).num(),
        c.sub_spec(b).num() <= c.sub_spec(a).num(),
{
    lemma_difference(a, c);
    lemma_difference(b, c);
    lemma_difference(c, a);
    lemma_difference(c, b);
    lemma_ordered(
        a.num() - c.num(),
        b.num() - c.num(),
        1,
        a.sub_spec(c).pattern(),
        b.sub_spec(c).pattern(),
    );
    lemma_ordered(
        c.num() - b.num(),
        c.num() - a.num(),
        1,
        c.sub_spec(b).pattern(),
        c.sub_spec(a).pattern(),
    );
}

/// A larger factor gives no smaller product with a number not below zero.
pub proof fn lemma_product_monotone(a: Scalar, b: Scalar, c: Scalar)
    requires
        a.is_finite_spec(),
        b.is_finite_spec(),
        c.is_finite_spec(),
        a.num() <= b.num(),
        c.num() >= 0,
    ensures
        !a.mul_spec(c).is_nan_spec(),
        !b.mul_spec(c).is_nan_spec(),
        a.mul_spec(c).num() <= b.mul_spec(c).num(),
        c.mul_spec(a).num() <= c.mul_spec(b).num(),
        a.num() >= 0 ==> a.mul_spec(c).num() >= 0,
{
    lemma_product(a, c);
    lemma_product(b, c);
    lemma_mul_commutes(a, c);
    lemma_mul_commutes(b, c);
    lemma_unit();
    assert(a.num() * c.num() <= b.num() * c.num()) by (nonlinear_arith)
        requires
            a.num() <= b.num(),
            c.num() >= 0,
    ;
    if a.num() >= 0 {
        assert(a.num() * c.num() >= 0) by (nonlinear_arith)
            requires
                a.num() >= 0,
                c.num() >= 0,
        ;
    }
    lemma_ordered(
        a.num() * c.num(),
        b.num() * c.num(),
        unit(),
        a.mul_spec(c).pattern(),
        b.mul_spec(c).pattern(),
    );
}

/// A larger numerator gives no smaller quotient by a number above zero.
pub proof fn lemma_quotient_monotone(a: Scalar, b: Scalar, c: Scalar)
    requires
        a.is_finite_spec(),
        b.is_finite_spec(),
        c.is_finite_spec(),
        a.num() <= b.num(),
        c.num() > 0,
    ensures
        !a.div_spec(c).is_nan_spec(),
        !b.div_spec(c).is_nan_spec(),
        a.div_spec(c).num() <= b.div_spec(c).num(),
        a.num() >= 0 ==> a.div_spec(c).num() >= 0,
{
    lemma_quotient(a, c);
    lemma_quotient(b, c);
    lemma_unit();
    let u = unit() as int;
    let x = a.num() * u;
    let y = b.num() * u;
    assert(x <= y && (x < 0 <==> a.num() < 0) && (y < 0 <==> b.num() < 0)) by (nonlinear_arith)
        requires
            x == a.num() * u,
            y == b.num() * u,
            a.num() <= b.num(),
            u > 0,
    ;
    assert((-a.num()) * u == -x && (-b.num()) * u == -y) by (nonlinear_arith)
        requires
            x == a.num() * u,
            y == b.num() * u,
    ;
    assert(abs_int(a.num()) * unit() == abs_int(x));
    assert(abs_int(b.num()) * unit() == abs_int(y));
    lemma_ordered(x, y, c.num() as nat, a.div_spec(c).pattern(), b.div_spec(c).pattern());
}

/// A larger divisor gives no larger quotient of a number not below zero.
pub proof fn lemma_quotient_antitone(a: Scalar, b: Scalar, c: Scalar)
    requires
        a.is_finite_spec(),
        b.is_finite_spec(),
        c.is_finite_spec(),
        0 < b.num() <= c.num(),
        a.num() >= 0,
    ensures
        !a.div_spec(b).is_nan_spec(),
        !a.div_spec(c).is_nan_spec(),
        a.div_spec(c).num() <= a.div_spec(b).num(),
        a.div_spec(c).num() >= 0,
{
    lemma_quotient(a, b);
    lemma_quotient(a, c);
    let x = abs_int(a.num()) * unit();
    assert(x * b.num() <= x * c.num()) by (nonlinear_arith)
        requires
            x >= 0,
            b.num() <= c.num(),
    ;
    lemma_nearest_monotone(x, c.num() as nat, x, b.num() as nat);
    lemma_magnitude_increases(a.div_spec(c).pattern(), a.div_spec(b).pattern());
}

/// Roots of numbers of moderate size, as patterns.
pub proof fn lemma_root(a: Scalar)
    requires
        a.within(60),
        a.num() >= 0,
    ensures
        a.sqrt_spec().is_finite_spec(),
        a.sqrt_spec().num() >= 0,
        a.sqrt_spec().num() == magnitude(a.sqrt_spec().pattern()),
        is_nearest_root((a.num() * unit()) as nat, a.sqrt_spec().pattern()),
{
    reveal(Scalar::sqrt_spec);
    lemma_unit();
    assert(magnitude(0) == 0 && magnitude(1) == 1);
    if a.num() == 0 {
        lemma_zero_pattern(a);
        assert(a.num() * unit() == 0) by (nonlinear_arith)
            requires
                a.num() == 0,
        ;
    } else {
        let n = magnitude(a.pattern()) * unit();
        assert(n <= pow2(60) * unit() * unit()) by (nonlinear_arith)
            requires
                n == magnitude(a.pattern()) * unit(),
                magnitude(a.pattern()) <= pow2(60) * unit(),
        ;
        lemma_root_exists(n);
    }
}

/// A larger number has no smaller root.
pub proof fn lemma_root_monotone(a: Scalar, b: Scalar)
    requires
        a.within(60),
        b.within(60),
        0 <= a.num() <= b.num(),
    ensures
        a.sqrt_spec().is_finite_spec(),
        b.sqrt_spec().is_finite_spec(),
        0 <= a.sqrt_spec().num() <= b.sqrt_spec().num(),
{
    lemma_root(a);
    lemma_root(b);
    lemma_unit();
    let p = a.sqrt_spec().pattern();
    let q = b.sqrt_spec().pattern();
    let n = a.num() * unit();
    let m = b.num() * unit();
    assert(0 <= n <= m) by (nonlinear_arith)
        requires
            0 <= a.num() <= b.num(),
            n == a.num() * unit(),
            m == b.num() * unit(),
    ;
    if q < p {
        let c1 = magnitude((p - 1) as nat) + magnitude(p);
        let c2 = magnitude(q) + magnitude(q + 1);
        lemma_magnitude_increases(q, (p - 1) as nat);
        lemma_magnitude_increases(q + 1, p);
        assert(c2 * c2 <= c1 * c1) by (nonlinear_arith)
            requires
                0 <= c2 <= c1,
        ;
        // both are halfway cases, and only one of the two is even
        if q + 1 < p {
            assert(c2 * c2 < c1 * c1) by (nonlinear_arith)
                requires
                    0 <= c2 < c1,
            ;
        }
    }
    lemma_magnitude_increases(p, q);
}

} // verus!
