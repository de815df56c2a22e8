//! Long sums.

use super::arith::abs_int;
use super::bounds::{lemma_rounds_within, lemma_sum, lemma_sum_error, PRECISION};
use super::consts::ZERO;
use super::convert::lemma_unit;
use super::{magnitude, scalar, unit, Scalar};
use vstd::arithmetic::power2::{lemma2_to64, lemma_pow2_adds, lemma_pow2_pos, pow2};
use vstd::prelude::*;

verus! {

/// Exact sum of the first `k` numbers.
pub open spec fn exact_sum(s: Seq<Scalar>, k: int) -> int
    decreases k,
{
    if k <= 0 {
        0
    } else {
        exact_sum(s, k - 1) + s[k - 1].num()
    }
}

/// Exact sum of the sizes of the first `k` numbers.
pub open spec fn exact_size(s: Seq<Scalar>, k: int) -> nat
    decreases k,
{
    if k <= 0 {
        0
    } else {
        exact_size(s, k - 1) + abs_int(s[k - 1].num())
    }
}

/// Sum of the first `k` numbers, rounded after each.
pub open spec fn running_sum(s: Seq<Scalar>, k: int) -> Scalar
    decreases k,
{
    if k <= 0 {
        scalar(ZERO)
    } else {
        running_sum(s, k - 1).add_spec(s[k - 1])
    }
}

/// Number of summands that a bounded sum may have.
pub const MOST_SUMMANDS: u32 = 0x10_0000;

pub proof fn lemma_exact_size(s: Seq<Scalar>, k: int)
    requires
        0 <= k <= s.len(),
        forall|i: int| 0 <= i < s.len() ==> (#[trigger] s[i]).within(40),
    ensures
        exact_size(s, k) <= k * (pow2(40) * unit()),
        -(exact_size(s, k) as int) <= exact_sum(s, k) <= exact_size(s, k),
    decreases k,
{
    let b = (pow2(40) * unit()) as int;
    if k > 0 {
        lemma_exact_size(s, k - 1);
        assert(s[k - 1].within(40));
        assert(k * b == (k - 1) * b + b) by (nonlinear_arith);
    } else {
        assert(k * b == 0) by (nonlinear_arith)
            requires
                k == 0,
        ;
    }
}

/// A long sum is off by few parts of the summands' sizes.
pub proof fn lemma_running_sum(s: Seq<Scalar>, k: int)
    requires
        0 <= k <= s.len(),
        k <= MOST_SUMMANDS,
        forall|i: int| 0 <= i < s.len() ==> (#[trigger] s[i]).within(40),
    ensures
        running_sum(s, k).within(62),
        abs_int(running_sum(s, k).num() - exact_sum(s, k)) * PRECISION <= 6 * k * exact_size(s, k),
        2 * abs_int(running_sum(s, k).num() - exact_sum(s, k)) <= exact_size(s, k),
    decreases k,
{
    lemma_unit();
    lemma2_to64();
    lemma_pow2_pos(62);
    assert(magnitude(0) == 0);
    if k > 0 {
        lemma_running_sum(s, k - 1);
        lemma_exact_size(s, k);
        let r = running_sum(s, k - 1);
        let x = s[k - 1];
        assert(x.within(40));
        let e = abs_int(r.num() - exact_sum(s, k - 1)) as int;
        let a = exact_size(s, k - 1) as int;
        let b = exact_size(s, k) as int;
        let v = abs_int(r.num() + x.num()) as int;
        assert(v <= b + e && e <= a && a <= b);
        let top = (pow2(40) * unit()) as int;
        assert(b <= 0x10_0000 * top) by (nonlinear_arith)
            requires
                b <= k * top,
                k <= 0x10_0000,
                top >= 0,
        ;
        lemma_pow2_adds(20, 40);
        lemma_pow2_adds(60, 2);
        assert(pow2(62) * unit() == 4 * (0x10_0000 * top)) by (nonlinear_arith)
            requires
                pow2(62) == pow2(60) * 4,
                pow2(60) == 0x10_0000 * pow2(40),
                top == pow2(40) * unit(),
        ;
        assert(pow2(62) * unit() * 1 == pow2(62) * unit());
        lemma_rounds_within(v as nat, 1, 62);
        lemma_sum(r, x);
        lemma_sum_error(r, x);
        let f = abs_int(r.add_spec(x).num() - (r.num() + x.num())) as int;
        if f >= 1 {
            assert(f * PRECISION >= PRECISION);
        }
        assert(f * PRECISION <= 3 * v);
        let g = abs_int(running_sum(s, k).num() - exact_sum(s, k)) as int;
        assert(g <= e + f);
        assert(6 * (k - 1) * a <= 6 * (k - 1) * b) by (nonlinear_arith)
            requires
                0 <= a <= b,
                k >= 1,
        ;
        assert(6 * k * b == 6 * (k - 1) * b + 6 * b) by (nonlinear_arith);
        assert(g * PRECISION <= 6 * k * b);
        assert(2 * g <= b) by (nonlinear_arith)
            requires
                g * PRECISION <= 6 * k * b,
                k <= 0x10_0000,
                b >= 0,
                PRECISION == 0xff_ffff,
        ;
    } else {
        assert(6 * k * exact_size(s, k) == 0) by (nonlinear_arith)
            requires
                k == 0,
        ;
    }
}

/// The exact sum of equal numbers.
pub proof fn lemma_exact_sum_of_equals(s: Seq<Scalar>, k: int, w: int)
    requires
        0 <= k <= s.len(),
        w >= 0,
        forall|i: int| 0 <= i < k ==> (#[trigger] s[i]).num() == w,
    ensures
        exact_sum(s, k) == k * w,
        exact_size(s, k) == k * w,
    decreases k,
{
    if k > 0 {
        lemma_exact_sum_of_equals(s, k - 1, w);
        assert(s[k - 1].num() == w);
        assert(k * w == (k - 1) * w + w) by (nonlinear_arith);
    } else {
        assert(k * w == 0) by (nonlinear_arith)
            requires
                k == 0,
        ;
    }
}

} // verus!
