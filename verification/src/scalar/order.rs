//! How rounding respects order.

use super::arith::abs_int;
use super::consts::{ONE, TWO, ZERO};
use super::convert::lemma_representable;
use super::exact::lemma_exact;
use super::round::{
    above_lower, below_upper, is_nearest, lemma_magnitude_increases, lemma_nearest, nearest,
};
use super::{magnitude, scalar, unit, Scalar, BINADE, INF_PATTERN};
use vstd::arithmetic::power2::{lemma2_to64, lemma_pow2_adds, lemma_pow2_pos};
use vstd::prelude::*;

verus! {

proof fn lemma_nearest_from(n: nat, d: nat, p: nat) -> (q: nat)
    requires
        d > 0,
        p <= INF_PATTERN,
        p > 0 ==> above_lower(n, d, p),
    ensures
        is_nearest(n, d, q),
        p <= q <= INF_PATTERN,
    decreases INF_PATTERN - p,
{
    if p == INF_PATTERN || below_upper(n, d, p) {
        p
    } else {
        lemma_nearest_from(n, d, p + 1)
    }
}

/// Every rational has a nearest pattern.
pub proof fn lemma_nearest_exists(n: nat, d: nat)
    requires
        d > 0,
    ensures
        is_nearest(n, d, nearest(n, d)),
        nearest(n, d) <= INF_PATTERN,
{
    let q = lemma_nearest_from(n, d, 0);
    lemma_nearest(n, d, q);
}

/// Rounding keeps the order of rationals.
pub proof fn lemma_nearest_monotone(n1: nat, d1: nat, n2: nat, d2: nat)
    requires
        d1 > 0,
        d2 > 0,
        n1 * d2 <= n2 * d1,
    ensures
        nearest(n1, d1) <= nearest(n2, d2),
{
    lemma_nearest_exists(n1, d1);
    lemma_nearest_exists(n2, d2);
    let p = nearest(n1, d1);
    let q = nearest(n2, d2);
    if p > q {
        let c1 = magnitude((p - 1) as nat) + magnitude(p);
        let c2 = magnitude(q) + magnitude(q + 1);
        lemma_magnitude_increases(q, (p - 1) as nat);
        lemma_magnitude_increases(q + 1, p);
        assert(2 * n1 >= c1 * d1);
        assert(2 * n2 <= c2 * d2);
        assert(c1 * d1 * d2 <= 2 * (n1 * d2)) by (nonlinear_arith)
            requires
                2 * n1 >= c1 * d1,
                d2 > 0,
        ;
        assert(2 * (n2 * d1) <= c2 * d1 * d2) by (nonlinear_arith)
            requires
                2 * n2 <= c2 * d2,
                d1 > 0,
        ;
        let k = d1 * d2;
        assert(k > 0) by (nonlinear_arith)
            requires
                k == d1 * d2,
                d1 > 0,
                d2 > 0,
        ;
        assert(c1 * d1 * d2 == c1 * k && c2 * d1 * d2 == c2 * k) by (nonlinear_arith)
            requires
                k == d1 * d2,
        ;
        assert(c1 <= c2) by (nonlinear_arith)
            requires
                c1 * k <= c2 * k,
                k > 0,
        ;
        assert(p == q + 1);
        assert(2 * n1 == c1 * d1) by (nonlinear_arith)
            requires
                2 * n1 >= c1 * d1,
                2 * (n1 * d2) <= c1 * k,
                k == d1 * d2,
                d2 > 0,
        ;
        assert(2 * n2 == c2 * d2) by (nonlinear_arith)
            requires
                2 * n2 <= c2 * d2,
                2 * (n2 * d1) >= c2 * k,
                k == d1 * d2,
                d1 > 0,
        ;
    }
}

impl Scalar {
    /// Not below zero, or not a number.
    pub open spec fn is_nonnegative(self) -> bool {
        self.is_nan_spec() || self.num() >= 0
    }

    /// A number in 0..=1.
    pub open spec fn in_unit(self) -> bool {
        !self.is_nan_spec() && 0 <= self.num() <= unit()
    }
}

/// One is one unit, zero is none.
pub proof fn lemma_one()
    ensures
        scalar(ONE).num() == unit(),
        !scalar(ONE).is_nan_spec(),
        scalar(ZERO).num() == 0,
        !scalar(ZERO).is_nan_spec(),
        scalar(ONE).in_unit(),
        scalar(ZERO).in_unit(),
        unit() > 0,
{
    lemma2_to64();
    lemma_pow2_pos(149);
    vstd::arithmetic::div_mod::lemma_fundamental_div_mod_converse(
        ONE as int,
        BINADE as int,
        127,
        0,
    );
    lemma_pow2_adds(23, 126);
    assert(magnitude(0) == 0);
}

pub proof fn lemma_add_nonnegative(a: Scalar, b: Scalar)
    requires
        a.is_nonnegative(),
        b.is_nonnegative(),
    ensures
        a.add_spec(b).is_nonnegative(),
{
    reveal(Scalar::add_spec);
    if !a.is_nan_spec() && !b.is_nan_spec() && a.is_finite_spec() && b.is_finite_spec() {
        let sum = a.num() + b.num();
        lemma_nearest_exists(abs_int(sum), 1);
        assert(magnitude(0) == 0);
    }
}

pub proof fn lemma_mul_nonnegative(a: Scalar, b: Scalar)
    requires
        a.is_nonnegative(),
        b.is_nonnegative(),
    ensures
        a.mul_spec(b).is_nonnegative(),
{
    reveal(Scalar::mul_spec);
    lemma_one();
    if a.is_nan_spec() || b.is_nan_spec() {
    } else if a.is_infinite_spec() || b.is_infinite_spec() {
        lemma_magnitude_increases(0, INF_PATTERN as nat);
        assert(magnitude(0) == 0);
    } else {
        let ma = magnitude(a.pattern());
        let mb = magnitude(b.pattern());
        lemma_nearest_exists(ma * mb, unit());
        if a.negative() || b.negative() {
            if a.negative() {
                assert(ma * mb == 0) by (nonlinear_arith)
                    requires
                        ma == 0,
                ;
            } else {
                assert(ma * mb == 0) by (nonlinear_arith)
                    requires
                        mb == 0,
                ;
            }
            assert(magnitude(0) * unit() == 0) by (nonlinear_arith)
                requires
                    magnitude(0) == 0,
            ;
            lemma_exact(0, 0, unit());
        }
    }
}

/// Taking away something not negative does not increase a number.
pub proof fn lemma_sub_decreases(a: Scalar, b: Scalar)
    requires
        a.is_finite_spec(),
        b.is_nonnegative(),
    ensures
        a.sub_spec(b).is_nan_spec() || a.sub_spec(b).num() <= a.num(),
{
    reveal(Scalar::add_spec);
    let c = b.neg_spec();
    if b.is_nan_spec() {
    } else if b.is_infinite_spec() {
        lemma_magnitude_increases(a.pattern(), INF_PATTERN as nat);
        lemma_magnitude_increases(0, INF_PATTERN as nat);
        assert(magnitude(0) == 0);
    } else {
        let sum = a.num() + c.num();
        assert(c.num() == -b.num());
        lemma_nearest_exists(abs_int(sum), 1);
        assert(magnitude(0) == 0);
        if sum > 0 {
            lemma_nearest_monotone(abs_int(sum), 1, abs_int(a.num()), 1);
            lemma_representable(a.pattern());
            lemma_magnitude_increases(nearest(abs_int(sum), 1), a.pattern());
        } else if sum < 0 && a.num() < 0 {
            lemma_nearest_monotone(abs_int(a.num()), 1, abs_int(sum), 1);
            lemma_representable(a.pattern());
            lemma_magnitude_increases(a.pattern(), nearest(abs_int(sum), 1));
        }
    }
}

/// A number in 0..=1 is finite.
pub proof fn lemma_unit_finite(a: Scalar)
    requires
        a.in_unit(),
    ensures
        a.is_finite_spec(),
{
    lemma_one();
    if a.is_infinite_spec() {
        lemma_magnitude_increases(ONE as nat, INF_PATTERN as nat);
    }
}

pub proof fn lemma_div_nonnegative(a: Scalar, b: Scalar)
    requires
        a.is_nonnegative(),
        !b.negative(),
    ensures
        a.div_spec(b).is_nonnegative(),
{
    reveal(Scalar::div_spec);
    lemma_one();
    assert(magnitude(0) == 0);
    if a.is_nan_spec() || b.is_nan_spec() {
    } else if a.is_infinite_spec() || b.is_infinite_spec() || b.num() == 0 {
        lemma_magnitude_increases(0, INF_PATTERN as nat);
    } else {
        let n = magnitude(a.pattern()) * unit();
        let d = magnitude(b.pattern());
        lemma_nearest_exists(n, d);
        if a.negative() {
            assert(n == 0) by (nonlinear_arith)
                requires
                    magnitude(a.pattern()) == 0,
                    n == magnitude(a.pattern()) * unit(),
            ;
            assert(magnitude(0) * d == 0) by (nonlinear_arith)
                requires
                    magnitude(0) == 0,
            ;
            lemma_exact(0, 0, d);
        }
    }
}

/// Capping a number that is not below zero at 1 puts it into 0..=1.
pub proof fn lemma_capped(a: Scalar)
    requires
        a.is_nonnegative(),
    ensures
        a.min_spec(scalar(ONE)).in_unit(),
{
    lemma_one();
}

/// Flooring a number that is not above 1 at 0 puts it into 0..=1.
pub proof fn lemma_floored(a: Scalar)
    requires
        a.is_nan_spec() || a.num() <= unit(),
    ensures
        a.max_spec(scalar(ZERO)).in_unit(),
{
    lemma_one();
}

impl Scalar {
    /// Zero, of either sign.
    pub open spec fn is_zero_spec(self) -> bool {
        !self.is_nan_spec() && self.num() == 0
    }
}

/// A zero is finite and has an empty pattern.
pub proof fn lemma_zero_pattern(a: Scalar)
    requires
        a.is_zero_spec(),
    ensures
        a.pattern() == 0,
        a.is_finite_spec(),
{
    lemma_magnitude_increases(0, a.pattern());
    assert(magnitude(0) == 0);
}

/// A number not above another minus that other is not above zero.
pub proof fn lemma_sub_nonpositive(a: Scalar, b: Scalar)
    requires
        a.is_finite_spec(),
        b.is_finite_spec(),
        a.num() <= b.num(),
    ensures
        !a.sub_spec(b).is_nan_spec(),
        a.sub_spec(b).num() <= 0,
{
    reveal(Scalar::add_spec);
    let c = b.neg_spec();
    assert(c.num() == -b.num());
    lemma_nearest_exists(abs_int(a.num() + c.num()), 1);
    assert(magnitude(0) == 0);
}

/// The difference of two numbers in 0..=1 is finite.
pub proof fn lemma_sub_unit_finite(a: Scalar, b: Scalar)
    requires
        a.in_unit(),
        b.in_unit(),
    ensures
        a.sub_spec(b).is_finite_spec(),
{
    lemma_unit_finite(a);
    lemma_unit_finite(b);
    reveal(Scalar::add_spec);
    lemma_one();
    let c = b.neg_spec();
    assert(c.num() == -b.num());
    let n = abs_int(a.num() + c.num());
    lemma_nearest_monotone(n, 1, unit(), 1);
    lemma_representable(ONE as nat);
}

pub proof fn lemma_zero_product(a: Scalar, b: Scalar)
    requires
        a.is_zero_spec() && b.is_finite_spec() || a.is_finite_spec() && b.is_zero_spec(),
    ensures
        a.mul_spec(b).is_zero_spec(),
{
    reveal(Scalar::mul_spec);
    lemma_one();
    let ma = magnitude(a.pattern());
    let mb = magnitude(b.pattern());
    assert(magnitude(0) == 0);
    if b.is_zero_spec() {
        lemma_zero_pattern(b);
    }
    if a.is_zero_spec() {
        lemma_zero_pattern(a);
        assert(ma * mb == 0) by (nonlinear_arith)
            requires
                ma == 0,
        ;
    } else {
        assert(ma * mb == 0) by (nonlinear_arith)
            requires
                mb == 0,
        ;
    }
    assert(magnitude(0) * unit() == 0) by (nonlinear_arith)
        requires
            magnitude(0) == 0,
    ;
    lemma_exact(0, 0, unit());
}

pub proof fn lemma_zero_sum(a: Scalar, b: Scalar)
    requires
        a.is_zero_spec(),
        b.is_zero_spec(),
    ensures
        a.add_spec(b).is_zero_spec(),
{
    reveal(Scalar::add_spec);
    lemma_zero_pattern(a);
    lemma_zero_pattern(b);
    assert(magnitude(0) == 0);
}

pub proof fn lemma_zero_quotient(a: Scalar, b: Scalar)
    requires
        a.is_zero_spec(),
    ensures
        a.div_spec(b).is_zero_spec() || a.div_spec(b).is_nan_spec(),
        b.is_finite_spec() && b.num() != 0 ==> a.div_spec(b).is_zero_spec(),
{
    reveal(Scalar::div_spec);
    lemma_zero_pattern(a);
    assert(magnitude(0) == 0);
    if b.is_finite_spec() && b.num() != 0 {
        let d = magnitude(b.pattern());
        assert(magnitude(0) * unit() == 0 && magnitude(0) * d == 0) by (nonlinear_arith)
            requires
                magnitude(0) == 0,
        ;
        lemma_exact(0, 0, d);
    }
}

/// The sum of two numbers in 0..=1 is finite.
pub proof fn lemma_sum_finite(a: Scalar, b: Scalar)
    requires
        a.in_unit(),
        b.in_unit(),
    ensures
        a.add_spec(b).is_finite_spec(),
{
    lemma_unit_finite(a);
    lemma_unit_finite(b);
    reveal(Scalar::add_spec);
    lemma_one();
    let n = abs_int(a.num() + b.num());
    lemma_two();
    lemma_nearest_monotone(n, 1, 2 * unit(), 1);
    lemma_representable(TWO as nat);
}

/// Two is two units.
pub proof fn lemma_two()
    ensures
        magnitude(TWO as nat) == 2 * unit(),
{
    lemma2_to64();
    vstd::arithmetic::div_mod::lemma_fundamental_div_mod_converse(
        TWO as int,
        BINADE as int,
        128,
        0,
    );
    lemma_pow2_adds(23, 127);
    lemma_pow2_adds(1, 149);
}

} // verus!
