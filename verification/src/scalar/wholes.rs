//! Arithmetic that does not round: whole numbers and short fractions.

use super::{magnitude, scalar, unit, Scalar, INF_PATTERN};
use super::arith::abs_int;
use super::bounds::{lemma_difference, lemma_product, lemma_quotient, lemma_sum};
use super::consts::TWO;
use super::convert::{lemma_representable, lemma_unit};
use super::exact::{lemma_exact, lemma_floor_is_exact, lemma_scaled};
use super::order::{lemma_nearest_monotone, lemma_two};
use super::round::{lemma_magnitude_increases, nearest};
use vstd::arithmetic::div_mod::lemma_fundamental_div_mod;
use vstd::arithmetic::power2::{lemma2_to64, lemma_pow2_adds, lemma_pow2_pos, pow2};
use vstd::prelude::*;

verus! {

/// A hundred-and-twenty-eighth of one.
pub open spec fn part() -> nat {
    pow2(142)
}

pub proof fn lemma_parts_of_one()
    ensures
        unit() == 128 * part(),
        part() > 0,
{
    lemma2_to64();
    lemma_pow2_adds(7, 142);
    lemma_pow2_pos(142);
}

/// The number of parts is small enough for a number to be exact.
pub open spec fn is_short(k: int) -> bool {
    -0x100_0000 < k < 0x100_0000
}

/// A short number of parts is the magnitude of a pattern.
pub proof fn lemma_short(n: nat, k: int) -> (p: nat)
    requires
        is_short(k),
        n == k * part(),
        k >= 0,
    ensures
        p < INF_PATTERN,
        magnitude(p) == n,
        nearest(n, 1) == p,
{
    let p = lemma_scaled(k as nat, 142);
    lemma_representable(p);
    p
}

proof fn lemma_sign(k: int)
    ensures
        (-k) * part() == -(k * part()),
        k >= 0 ==> k * part() >= 0,
        k < 0 ==> k * part() < 0,
{
    lemma_parts_of_one();
    let w = part() as int;
    assert((-k) * w == -(k * w)) by (nonlinear_arith);
    assert(k >= 0 ==> k * w >= 0) by (nonlinear_arith)
        requires
            w > 0,
    ;
    assert(k < 0 ==> k * w < 0) by (nonlinear_arith)
        requires
            w > 0,
    ;
}

/// Short sums do not round.
pub proof fn lemma_sum_exact(a: Scalar, b: Scalar, k: int)
    requires
        a.is_finite_spec(),
        b.is_finite_spec(),
        is_short(k),
        a.num() + b.num() == k * part(),
    ensures
        a.add_spec(b).is_finite_spec(),
        a.add_spec(b).num() == a.num() + b.num(),
{
    lemma_sum(a, b);
    lemma_sign(k);
    let n = abs_int(a.num() + b.num());
    let p = lemma_short(n, abs_int(k) as int);
}

/// Short differences do not round.
pub proof fn lemma_difference_exact(a: Scalar, b: Scalar, k: int)
    requires
        a.is_finite_spec(),
        b.is_finite_spec(),
        is_short(k),
        a.num() - b.num() == k * part(),
    ensures
        a.sub_spec(b).is_finite_spec(),
        a.sub_spec(b).num() == a.num() - b.num(),
{
    lemma_difference(a, b);
    lemma_sign(k);
    let n = abs_int(a.num() - b.num());
    let p = lemma_short(n, abs_int(k) as int);
}

/// Short halves do not round.
pub proof fn lemma_half_exact(a: Scalar, k: int)
    requires
        a.is_finite_spec(),
        is_short(k),
        a.num() == 2 * (k * part()),
    ensures
        a.div_spec(scalar(TWO)).is_finite_spec(),
        a.div_spec(scalar(TWO)).num() == k * part(),
{
    lemma_two();
    lemma_unit();
    lemma_sign(k);
    let t = scalar(TWO);
    lemma_quotient(a, t);
    let n = abs_int(a.num());
    let m = abs_int(k * part());
    let p = lemma_short(m, abs_int(k) as int);
    let u = unit();
    assert((2 * m) * u == m * (2 * u)) by (nonlinear_arith);
    lemma_exact(p, n * u, 2 * u);
}

/// Short products of whole numbers do not round.
pub proof fn lemma_product_exact(a: Scalar, b: Scalar, i: int, j: int)
    requires
        a.is_finite_spec(),
        b.is_finite_spec(),
        a.num() == i * unit(),
        b.num() == j * unit(),
        0 <= i * j < 0x2_0000,
        i >= 0,
        j >= 0,
    ensures
        a.mul_spec(b).is_finite_spec(),
        a.mul_spec(b).num() == (i * j) * unit(),
{
    lemma_parts_of_one();
    lemma_product(a, b);
    let u = unit() as int;
    let w = part() as int;
    let q = i * j;
    assert((128 * q) * w == q * (128 * w)) by (nonlinear_arith);
    assert(q * u >= 0 && (i * u) * (j * u) == (q * u) * u && (q * u) * u >= 0) by (nonlinear_arith)
        requires
            q == i * j,
            q >= 0,
            u > 0,
    ;
    let p = lemma_short((q * u) as nat, 128 * q);
    lemma_exact(p, ((q * u) * u) as nat, unit());
}

/// A whole number divided by a small whole number, rounded and cut off, is the
/// integer quotient.
pub proof fn lemma_quotient_floor(a: Scalar, b: Scalar, i: int, j: int)
    requires
        a.is_finite_spec(),
        b.is_finite_spec(),
        a.num() == i * unit(),
        b.num() == j * unit(),
        0 <= i,
        1 <= j <= 128,
        i / j < 0x1_0000,
    ensures
        a.div_spec(b).is_finite_spec(),
        a.div_spec(b).num() >= 0,
        a.div_spec(b).floor_spec().is_finite_spec(),
        a.div_spec(b).floor_spec().num() == (i / j) * unit(),
{
    lemma_parts_of_one();
    let u = unit() as int;
    let w = part() as int;
    let k = i / j;
    lemma_fundamental_div_mod(i, j);
    vstd::arithmetic::div_mod::lemma_mod_bound(i, j);
    assert(k >= 0) by (nonlinear_arith)
        requires
            k == i / j,
            i >= 0,
            j >= 1,
    ;
    assert(i * u >= 0 && j * u > 0) by (nonlinear_arith)
        requires
            i >= 0,
            j >= 1,
            u > 0,
    ;
    lemma_quotient(a, b);
    let n = ((i * u) * u) as nat;
    let d = (j * u) as nat;
    assert((i * u) * u >= 0) by (nonlinear_arith)
        requires
            i * u >= 0,
            u > 0,
    ;
    let q = a.div_spec(b);
    // from below
    assert((128 * k) * w == k * (128 * w)) by (nonlinear_arith);
    assert(k * u >= 0) by (nonlinear_arith)
        requires
            k >= 0,
            u > 0,
    ;
    let lo = lemma_short((k * u) as nat, 128 * k);
    assert(k * j <= i) by (nonlinear_arith)
        requires
            i == j * k + i % j,
            i % j >= 0,
    ;
    assert((k * u) * (j * u) <= (i * u) * u) by (nonlinear_arith)
        requires
            k * j <= i,
            u > 0,
    ;
    lemma_nearest_monotone((k * u) as nat, 1, n, d);
    // from above
    let top = 128 * k + 127;
    assert(top * w == k * u + 127 * w) by (nonlinear_arith)
        requires
            top == 128 * k + 127,
            u == 128 * w,
    ;
    let hi = lemma_short((top * w) as nat, top);
    assert(128 * i <= top * j) by (nonlinear_arith)
        requires
            i == j * k + i % j,
            i % j <= j - 1,
            1 <= j <= 128,
            top == 128 * k + 127,
    ;
    assert((i * u) * u <= (top * w) * (j * u)) by (nonlinear_arith)
        requires
            128 * i <= top * j,
            u == 128 * w,
            w > 0,
    ;
    lemma_nearest_monotone(n, d, (top * w) as nat, 1);
    assert(lo <= q.pattern() <= hi);
    if lo < q.pattern() {
        lemma_magnitude_increases(lo, q.pattern());
    }
    if q.pattern() < hi {
        lemma_magnitude_increases(q.pattern(), hi);
    }
    assert(k * u <= q.num() <= k * u + 127 * w);
    if q.negative() {
        // only a zero is without its sign
        assert(q.num() == 0);
        lemma_floor_zero(q);
        assert(k == 0) by (nonlinear_arith)
            requires
                k * u <= 0,
                k >= 0,
                u > 0,
        ;
    } else {
        lemma_floor_is_exact(q);
        vstd::arithmetic::div_mod::lemma_fundamental_div_mod_converse(
            q.num(),
            u,
            k,
            q.num() - k * u,
        );
    }
}

proof fn lemma_floor_zero(q: Scalar)
    requires
        q.is_finite_spec(),
        q.num() == 0,
    ensures
        q.floor_spec().is_finite_spec(),
        q.floor_spec().num() == 0,
{
    lemma_unit();
    super::exact::lemma_floor_splits(q);
    let u = unit() as int;
    assert(0 * u + 0 == 0) by (nonlinear_arith);
    assert(0 == 0 * u + 0);
    vstd::arithmetic::div_mod::lemma_fundamental_div_mod_converse(0, u, 0, 0);
}

/// A number is a whole number.
pub open spec fn is_whole(s: Scalar, k: int) -> bool {
    s.is_finite_spec() && s.num() == k * unit()
}

/// Half a whole number to either side of a whole number.
pub proof fn lemma_sides_of(c: Scalar, size: Scalar, x: int, w: int)
    requires
        is_whole(c, x),
        is_whole(size, w),
        -0x1000 < x < 0x1000,
        -0x1000 < w < 0x1000,
    ensures
        ({
            let h = size.div_spec(scalar(TWO));
            &&& c.sub_spec(h).is_finite_spec() && 2 * c.sub_spec(h).num() == (2 * x - w) * unit()
            &&& c.add_spec(h).is_finite_spec() && 2 * c.add_spec(h).num() == (2 * x + w) * unit()
        }),
{
    lemma_parts_of_one();
    let u = unit() as int;
    let v = part() as int;
    assert(w * u == 2 * ((64 * w) * v) && x * u == (128 * x) * v) by (nonlinear_arith)
        requires
            u == 128 * v,
    ;
    lemma_half_exact(size, 64 * w);
    let h = size.div_spec(scalar(TWO));
    let (p, q) = (128 * x - 64 * w, 128 * x + 64 * w);
    assert((128 * x) * v - (64 * w) * v == p * v && (128 * x) * v + (64 * w) * v == q * v)
        by (nonlinear_arith)
        requires
            p == 128 * x - 64 * w,
            q == 128 * x + 64 * w,
    ;
    lemma_difference_exact(c, h, p);
    lemma_sum_exact(c, h, q);
    assert(2 * (p * v) == (2 * x - w) * u && 2 * (q * v) == (2 * x + w) * u) by (nonlinear_arith)
        requires
            p == 128 * x - 64 * w,
            q == 128 * x + 64 * w,
            u == 128 * v,
    ;
}

pub proof fn lemma_from_zero()
    ensures
        Scalar::from_int_spec(0).num() == 0,
        Scalar::from_int_spec(0).is_finite_spec(),
{
    reveal(Scalar::from_int_spec);
    lemma_representable(0);
    assert(magnitude(0) == 0);
    assert(0 * unit() == 0) by (nonlinear_arith);
}

} // verus!
