//! How large results get, and how far rounding moves them.

use super::arith::{abs_int, is_nearest_root, nearest_root};
use super::consts::ONE;
use super::convert::{lemma_representable, lemma_unit};
use super::exact::{lemma_exact, lemma_power};
use super::order::{lemma_nearest_exists, lemma_nearest_monotone, lemma_one};
use super::round::{lemma_magnitude_increases, lemma_magnitude_step, nearest, spacing};
use super::{magnitude, scalar, unit, Scalar, BINADE, INF_PATTERN};
use vstd::arithmetic::power2::{lemma_pow2_adds, lemma_pow2_pos, pow2};
use vstd::prelude::*;

verus! {

/// Rounding moves a number by less than one part in this many, or by half a
/// unit of two to the minus 149.
pub const PRECISION: u32 = 0xff_ffff;

/// What the smallest spacing adds to a rounding error, in the scale of
/// [`PRECISION`].
pub const TINY: u32 = 0x80_0000;

/// One is many of the smallest steps.
pub proof fn lemma_unit_large()
    ensures
        unit() >= 0x1_0000_0000_0000_0000 * 0x1_0000_0000_0000_0000,
{
    vstd::arithmetic::power2::lemma2_to64();
    lemma_pow2_adds(64, 64);
    lemma_pow2_adds(128, 21);
    lemma_pow2_pos(21);
    assert(pow2(149) >= pow2(128)) by (nonlinear_arith)
        requires
            pow2(149) == pow2(128) * pow2(21),
            pow2(21) >= 1,
    ;
}

/// Neighbours are close in relation to their size.
pub proof fn lemma_spacing_small(p: nat)
    ensures
        spacing(p) * TINY <= magnitude(p) + TINY,
{
    let b = BINADE as nat;
    let binade = p / b;
    if binade > 0 {
        let w = pow2((binade - 1) as nat);
        let offset = p % b;
        assert((b + offset) * w >= b * w) by (nonlinear_arith);
        assert(b * w == w * TINY) by (nonlinear_arith)
            requires
                b == 0x80_0000,
        ;
    }
}

/// The error of rounding a rational.
pub proof fn lemma_rounding_error(n: nat, d: nat)
    requires
        d > 0,
        nearest(n, d) < INF_PATTERN,
    ensures
        (magnitude(nearest(n, d)) * d - n) * PRECISION <= n + TINY * d,
        (n - magnitude(nearest(n, d)) * d) * PRECISION <= n + TINY * d,
{
    lemma_nearest_exists(n, d);
    let p = nearest(n, d);
    let m = magnitude(p) as int;
    let md = m * d;
    let s = spacing(p) as int;
    lemma_magnitude_step(p);
    lemma_spacing_small(p);
    assert((m + (m + s)) * d == 2 * md + s * d) by (nonlinear_arith)
        requires
            md == m * d,
    ;
    assert(s * d * TINY <= md + TINY * d) by (nonlinear_arith)
        requires
            s * TINY <= m + TINY,
            md == m * d,
            d > 0,
    ;
    if p > 0 {
        let q = (p - 1) as nat;
        let r = spacing(q) as int;
        lemma_magnitude_step(q);
        lemma_spacing_small(q);
        assert(((m - r) + m) * d == 2 * md - r * d) by (nonlinear_arith)
            requires
                md == m * d,
        ;
        assert(r * d * TINY <= md + TINY * d) by (nonlinear_arith)
            requires
                r * TINY <= m + TINY,
                md == m * d,
                d > 0,
        ;
    } else {
        assert(magnitude(0) == 0);
        assert(md == 0) by (nonlinear_arith)
            requires
                md == m * d,
                m == 0,
        ;
    }
}

/// A sum of finite numbers, as pattern and value.
pub proof fn lemma_sum(a: Scalar, b: Scalar)
    requires
        a.is_finite_spec(),
        b.is_finite_spec(),
    ensures
        a.add_spec(b).pattern() == nearest(abs_int(a.num() + b.num()), 1),
        a.add_spec(b).pattern() <= INF_PATTERN,
        a.add_spec(b).num() == if a.num() + b.num() < 0 {
            -(magnitude(a.add_spec(b).pattern()) as int)
        } else {
            magnitude(a.add_spec(b).pattern()) as int
        },
{
    reveal(Scalar::add_spec);
    assert(magnitude(0) == 0);
    lemma_representable(0);
    lemma_nearest_exists(abs_int(a.num() + b.num()), 1);
}

/// A difference of finite numbers, as pattern and value.
pub proof fn lemma_difference(a: Scalar, b: Scalar)
    requires
        a.is_finite_spec(),
        b.is_finite_spec(),
    ensures
        a.sub_spec(b).pattern() == nearest(abs_int(a.num() - b.num()), 1),
        a.sub_spec(b).pattern() <= INF_PATTERN,
        a.sub_spec(b).num() == if a.num() - b.num() < 0 {
            -(magnitude(a.sub_spec(b).pattern()) as int)
        } else {
            magnitude(a.sub_spec(b).pattern()) as int
        },
{
    let c = b.neg_spec();
    assert(c.num() == -b.num());
    lemma_sum(a, c);
}

/// A product of finite numbers, as pattern and value.
pub proof fn lemma_product(a: Scalar, b: Scalar)
    requires
        a.is_finite_spec(),
        b.is_finite_spec(),
    ensures
        a.mul_spec(b).pattern() == nearest(abs_int(a.num() * b.num()), unit()),
        a.mul_spec(b).pattern() <= INF_PATTERN,
        a.mul_spec(b).num() == if a.num() * b.num() < 0 {
            -(magnitude(a.mul_spec(b).pattern()) as int)
        } else {
            magnitude(a.mul_spec(b).pattern()) as int
        },
{
    reveal(Scalar::mul_spec);
    lemma_unit();
    let x = magnitude(a.pattern()) as int;
    let y = magnitude(b.pattern()) as int;
    assert((-x) * y == -(x * y) && x * (-y) == -(x * y) && (-x) * (-y) == x * y && x * y >= 0)
        by (nonlinear_arith)
        requires
            x >= 0,
            y >= 0,
    ;
    lemma_nearest_exists(abs_int(a.num() * b.num()), unit());
    if x * y == 0 {
        assert(magnitude(0) == 0);
        assert(magnitude(0) * unit() == 0) by (nonlinear_arith)
            requires
                magnitude(0) == 0,
        ;
        lemma_exact(0, 0, unit());
    }
}

/// A quotient of finite numbers, as pattern and value.
pub proof fn lemma_quotient(a: Scalar, b: Scalar)
    requires
        a.is_finite_spec(),
        b.is_finite_spec(),
        b.num() != 0,
    ensures
        a.div_spec(b).pattern() == nearest(abs_int(a.num()) * unit(), abs_int(b.num())),
        a.div_spec(b).pattern() <= INF_PATTERN,
        a.div_spec(b).num() == if (a.num() < 0) != (b.num() < 0) {
            -(magnitude(a.div_spec(b).pattern()) as int)
        } else {
            magnitude(a.div_spec(b).pattern()) as int
        },
{
    reveal(Scalar::div_spec);
    lemma_unit();
    let d = abs_int(b.num());
    lemma_nearest_exists(abs_int(a.num()) * unit(), d);
    if a.num() == 0 {
        assert(magnitude(0) == 0);
        assert(magnitude(0) * d == 0 && 0 * unit() == 0) by (nonlinear_arith)
            requires
                magnitude(0) == 0,
        ;
        lemma_exact(0, 0, d);
    }
}

/// The error of a sum.
pub proof fn lemma_sum_error(a: Scalar, b: Scalar)
    requires
        a.is_finite_spec(),
        b.is_finite_spec(),
        a.add_spec(b).is_finite_spec(),
    ensures
        abs_int(a.add_spec(b).num() - (a.num() + b.num())) * PRECISION <= abs_int(
            a.num() + b.num(),
        ) + TINY,
{
    lemma_sum(a, b);
    lemma_rounding_error(abs_int(a.num() + b.num()), 1);
}

/// The error of a difference.
pub proof fn lemma_difference_error(a: Scalar, b: Scalar)
    requires
        a.is_finite_spec(),
        b.is_finite_spec(),
        a.sub_spec(b).is_finite_spec(),
    ensures
        abs_int(a.sub_spec(b).num() - (a.num() - b.num())) * PRECISION <= abs_int(
            a.num() - b.num(),
        ) + TINY,
{
    lemma_difference(a, b);
    lemma_rounding_error(abs_int(a.num() - b.num()), 1);
}

/// The error of a product.
pub proof fn lemma_product_error(a: Scalar, b: Scalar)
    requires
        a.is_finite_spec(),
        b.is_finite_spec(),
        a.mul_spec(b).is_finite_spec(),
    ensures
        abs_int(a.mul_spec(b).num() * unit() - a.num() * b.num()) * PRECISION <= abs_int(
            a.num() * b.num(),
        ) + TINY * unit(),
{
    lemma_product(a, b);
    lemma_unit();
    let n = abs_int(a.num() * b.num());
    lemma_rounding_error(n, unit());
    let m = magnitude(a.mul_spec(b).pattern()) as int;
    assert((-m) * unit() == -(m * unit())) by (nonlinear_arith);
}

/// The error of a quotient of numbers of the same sign.
pub proof fn lemma_quotient_error(a: Scalar, b: Scalar)
    requires
        a.is_finite_spec(),
        b.is_finite_spec(),
        b.num() != 0,
        a.div_spec(b).is_finite_spec(),
    ensures
        abs_int(a.div_spec(b).num() * b.num() - a.num() * unit()) * PRECISION <= abs_int(a.num())
            * unit() + TINY * abs_int(b.num()),
{
    lemma_quotient(a, b);
    lemma_unit();
    let d = abs_int(b.num()) as int;
    let x = abs_int(a.num()) as int;
    let u = unit() as int;
    lemma_rounding_error((x * u) as nat, d as nat);
    let m = magnitude(a.div_spec(b).pattern()) as int;
    assert((-m) * d == -(m * d) && m * (-d) == -(m * d) && (-m) * (-d) == m * d && (-x) * u == -(x
        * u)) by (nonlinear_arith);
    if a.num() == 0 {
        lemma_zero_numerator(d as nat);
        assert(m * d == 0 && x * u == 0) by (nonlinear_arith)
            requires
                m == 0,
                x == 0,
        ;
    }
}

proof fn lemma_zero_numerator(d: nat)
    requires
        d > 0,
    ensures
        0 * unit() == 0,
        nearest(0, d) == 0,
        magnitude(0) == 0,
{
    assert(magnitude(0) * d == 0) by (nonlinear_arith)
        requires
            magnitude(0) == 0,
    ;
    lemma_exact(0, 0, d);
}

impl Scalar {
    /// A finite number of size at most two to the power `k`.
    pub open spec fn within(self, k: nat) -> bool {
        self.is_finite_spec() && abs_int(self.num()) <= pow2(k) * unit()
    }
}

/// A rational of size at most two to the power `k` rounds to such a number.
pub proof fn lemma_rounds_within(n: nat, d: nat, k: nat)
    requires
        d > 0,
        k <= 100,
        n <= pow2(k) * unit() * d,
    ensures
        nearest(n, d) < INF_PATTERN,
        magnitude(nearest(n, d)) <= pow2(k) * unit(),
{
    let p = ((127 + k) * BINADE) as nat;
    lemma_power(p, k);
    lemma_representable(p);
    let m = pow2(k) * unit();
    assert(n * 1 <= m * d);
    lemma_nearest_monotone(n, d, m, 1);
    lemma_magnitude_increases(nearest(n, d), p);
}

/// A wider bound holds too.
pub proof fn lemma_within_weakens(a: Scalar, j: nat, k: nat)
    requires
        a.within(j),
        j <= k,
    ensures
        a.within(k),
{
    let d = (k - j) as nat;
    lemma_pow2_adds(j, d);
    lemma_pow2_pos(d);
    lemma_pow2_pos(j);
    lemma_unit();
    assert(pow2(j) * unit() <= pow2(k) * unit()) by (nonlinear_arith)
        requires
            pow2(k) == pow2(j) * pow2(d),
            pow2(d) >= 1,
            pow2(j) >= 1,
    ;
}

/// A number is within a power of two when its pattern is.
pub proof fn lemma_within_pattern(a: Scalar, k: nat)
    requires
        k <= 100,
        a.pattern() <= (127 + k) * BINADE,
    ensures
        a.within(k),
{
    let p = ((127 + k) * BINADE) as nat;
    lemma_power(p, k);
    lemma_magnitude_increases(a.pattern(), p);
}

pub proof fn lemma_within_neg(a: Scalar, k: nat)
    requires
        a.within(k),
    ensures
        a.neg_spec().within(k),
        a.neg_spec().num() == -a.num(),
{
}

/// A sum grows by one power of two at most.
pub proof fn lemma_within_sum(a: Scalar, b: Scalar, k: nat)
    requires
        a.within(k),
        b.within(k),
        k < 100,
    ensures
        a.add_spec(b).within(k + 1),
        a.sub_spec(b).within(k + 1),
{
    lemma_sum(a, b);
    lemma_difference(a, b);
    lemma_pow2_adds(1, k);
    vstd::arithmetic::power2::lemma2_to64();
    let m = pow2(k) * unit();
    assert(pow2(k + 1) * unit() * 1 == 2 * m) by (nonlinear_arith)
        requires
            pow2(k + 1) == 2 * pow2(k),
            m == pow2(k) * unit(),
    ;
    lemma_rounds_within(abs_int(a.num() + b.num()), 1, k + 1);
    lemma_rounds_within(abs_int(a.num() - b.num()), 1, k + 1);
}

/// Bounds of factors multiply.
pub proof fn lemma_within_product(a: Scalar, b: Scalar, j: nat, k: nat)
    requires
        a.within(j),
        b.within(k),
        j + k <= 100,
    ensures
        a.mul_spec(b).within(j + k),
{
    lemma_product(a, b);
    lemma_unit();
    lemma_pow2_adds(j, k);
    let x = abs_int(a.num()) as int;
    let y = abs_int(b.num()) as int;
    let p = pow2(j) as int;
    let q = pow2(k) as int;
    let u = unit() as int;
    assert(abs_int(a.num() * b.num()) == x * y) by (nonlinear_arith)
        requires
            x == abs_int(a.num()),
            y == abs_int(b.num()),
    ;
    assert(x * y <= (p * q) * u * u) by (nonlinear_arith)
        requires
            0 <= x <= p * u,
            0 <= y <= q * u,
            u > 0,
    ;
    lemma_rounds_within((x * y) as nat, unit(), j + k);
}

/// A quotient stays within a power of two when its numerator is within that
/// many denominators.
pub proof fn lemma_within_quotient(a: Scalar, b: Scalar, k: nat)
    requires
        a.is_finite_spec(),
        b.is_finite_spec(),
        b.num() != 0,
        k <= 100,
        abs_int(a.num()) <= pow2(k) * abs_int(b.num()),
    ensures
        a.div_spec(b).within(k),
{
    lemma_quotient(a, b);
    let x = abs_int(a.num());
    let d = abs_int(b.num());
    let p = pow2(k);
    let u = unit();
    assert(x * u <= p * u * d) by (nonlinear_arith)
        requires
            x <= p * d,
    ;
    lemma_rounds_within(x * u, d, k);
}

/// A factor of size at most one shrinks.
pub proof fn lemma_product_shrinks(a: Scalar, b: Scalar)
    requires
        a.is_finite_spec(),
        b.is_finite_spec(),
        abs_int(b.num()) <= unit(),
    ensures
        a.mul_spec(b).is_finite_spec(),
        abs_int(a.mul_spec(b).num()) <= abs_int(a.num()),
{
    lemma_product(a, b);
    lemma_unit();
    let x = abs_int(a.num()) as int;
    let y = abs_int(b.num()) as int;
    let u = unit() as int;
    assert(abs_int(a.num() * b.num()) == x * y) by (nonlinear_arith)
        requires
            x == abs_int(a.num()),
            y == abs_int(b.num()),
    ;
    assert((x * y) * u <= (x * u) * u && x * y <= x * u) by (nonlinear_arith)
        requires
            x >= 0,
            0 <= y <= u,
    ;
    lemma_nearest_monotone((x * y) as nat, unit(), (x * u) as nat, unit());
    lemma_exact(a.pattern(), (x * u) as nat, unit());
    lemma_magnitude_increases(a.mul_spec(b).pattern(), a.pattern());
}

/// Adding a zero changes no value.
pub proof fn lemma_sum_with_zero(a: Scalar, z: Scalar)
    requires
        a.is_finite_spec(),
        z.is_zero_spec(),
    ensures
        a.add_spec(z).is_finite_spec(),
        a.add_spec(z).num() == a.num(),
        z.add_spec(a).is_finite_spec(),
        z.add_spec(a).num() == a.num(),
{
    super::order::lemma_zero_pattern(z);
    lemma_sum(a, z);
    lemma_sum(z, a);
    lemma_representable(a.pattern());
    assert(magnitude(0) == 0);
}

/// Multiplying by minus one negates.
pub proof fn lemma_product_minus_one(a: Scalar)
    requires
        a.is_finite_spec(),
    ensures
        scalar(0xbf80_0000).mul_spec(a).is_finite_spec(),
        scalar(0xbf80_0000).mul_spec(a).num() == -a.num(),
{
    let m = scalar(0xbf80_0000);
    lemma_one();
    assert(m.pattern() == ONE);
    assert(m.num() == -(unit() as int));
    lemma_product(m, a);
    let x = abs_int(a.num()) as int;
    let u = unit() as int;
    assert((-u) * a.num() == -(u * a.num())) by (nonlinear_arith);
    assert(abs_int(m.num() * a.num()) == x * u) by (nonlinear_arith)
        requires
            m.num() == -u,
            u > 0,
            x == abs_int(a.num()),
    ;
    lemma_exact(a.pattern(), (x * u) as nat, unit());
    if a.num() != 0 {
        assert((m.num() * a.num() < 0) == (a.num() > 0)) by (nonlinear_arith)
            requires
                m.num() == -u,
                u > 0,
                a.num() != 0,
        ;
    }
}

/// Some pattern from `p` on, up to `top`, is nearest to the root.
proof fn lemma_root_from(n: nat, p: nat, top: nat) -> (q: nat)
    requires
        p <= top < INF_PATTERN,
        ({
            let c = magnitude(top) + magnitude(top + 1);
            4 * n < c * c
        }),
        p > 0 ==> ({
            let c = magnitude((p - 1) as nat) + magnitude(p);
            4 * n > c * c || (4 * n == c * c && p % 2 == 0)
        }),
    ensures
        is_nearest_root(n, q),
    decreases top - p,
{
    let c = magnitude(p) + magnitude(p + 1);
    if 4 * n < c * c || (4 * n == c * c && p % 2 == 0) {
        p
    } else {
        lemma_root_from(n, p + 1, top)
    }
}

/// Numbers of moderate size have a root.
pub proof fn lemma_root_exists(n: nat)
    requires
        n <= pow2(60) * unit() * unit(),
    ensures
        is_nearest_root(n, nearest_root(n)),
{
    let top = ((127 + 30) * BINADE) as nat;
    lemma_power(top, 30);
    lemma_magnitude_increases(top, top + 1);
    lemma_pow2_adds(30, 30);
    lemma_unit();
    let m = magnitude(top);
    let c = m + magnitude(top + 1);
    let w = pow2(30);
    let u = unit();
    assert(m * m == pow2(60) * u * u) by (nonlinear_arith)
        requires
            m == w * u,
            pow2(60) == w * w,
    ;
    assert(c * c > 4 * (m * m)) by (nonlinear_arith)
        requires
            c > 2 * m,
    ;
    let q = lemma_root_from(n, 0, top);
}

/// A root is at least half of what its square is at least half the square of.
pub proof fn lemma_root_large(n: nat, v: nat)
    requires
        is_nearest_root(n, nearest_root(n)),
        2 * n >= v * v,
        v >= 16,
    ensures
        2 * magnitude(nearest_root(n)) >= v,
{
    let p = nearest_root(n);
    let m = magnitude(p) as int;
    let s = spacing(p) as int;
    lemma_magnitude_step(p);
    lemma_spacing_small(p);
    let c = m + magnitude(p + 1);
    if 2 * m < v {
        assert(c == 2 * m + s);
        assert(4 * c < 5 * v);
        assert(c * c >= 2 * (v * v));
        assert(16 * (c * c) < 25 * (v * v)) by (nonlinear_arith)
            requires
                0 <= 4 * c < 5 * v,
        ;
        assert(v * v > 0) by (nonlinear_arith)
            requires
                v >= 16,
        ;
    }
}

} // verus!
