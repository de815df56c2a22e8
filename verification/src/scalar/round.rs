//! Rounding to the nearest pattern.

use super::{magnitude, BINADE, INF_PATTERN};
use vstd::arithmetic::power2::pow2;
use vstd::prelude::*;

verus! {

/// Patterns denote ever larger magnitudes.
pub proof fn lemma_magnitude_increases(p: nat, q: nat)
    ensures
        p < q ==> magnitude(p) < magnitude(q),
        p == q ==> magnitude(p) == magnitude(q),
    decreases q,
{
    if p < q {
        lemma_magnitude_step((q - 1) as nat);
        if p < q - 1 {
            lemma_magnitude_increases(p, (q - 1) as nat);
        }
    }
}

/// Gap between a pattern's magnitude and the next one.
pub open spec fn spacing(p: nat) -> nat {
    let binade = p / (BINADE as nat);
    if binade == 0 {
        1
    } else {
        pow2((binade - 1) as nat)
    }
}

pub proof fn lemma_magnitude_step(p: nat)
    ensures
        magnitude(p + 1) == magnitude(p) + spacing(p),
        spacing(p) > 0,
{
    let b = BINADE as nat;
    let binade = p / b;
    let offset = p % b;
    vstd::arithmetic::power2::lemma_pow2_pos((binade - 1) as nat);
    vstd::arithmetic::power2::lemma2_to64();
    if offset + 1 < b {
        assert((p + 1) / b == binade && (p + 1) % b == offset + 1) by (nonlinear_arith)
            requires
                b > 0,
                binade == p / b,
                offset == p % b,
                offset + 1 < b,
        ;
        if binade > 0 {
            let w = pow2((binade - 1) as nat);
            assert((b + offset + 1) * w == (b + offset) * w + w) by (nonlinear_arith);
        }
    } else {
        assert((p + 1) / b == binade + 1 && (p + 1) % b == 0) by (nonlinear_arith)
            requires
                b > 0,
                binade == p / b,
                offset == p % b,
                offset + 1 == b,
        ;
        assert(magnitude(p + 1) == (b + 0) * pow2(binade));
        if binade > 0 {
            let w = pow2((binade - 1) as nat);
            vstd::arithmetic::power2::lemma_pow2_unfold(binade);
            assert((b + 0) * (2 * w) == (b + offset) * w + w) by (nonlinear_arith)
                requires
                    offset + 1 == b,
            ;
        }
    }
}


/// `p` is the pattern nearest to the rational `n / d`, in units of two to the
/// minus 149; halfway cases go to the even pattern. A value from halfway past
/// the largest finite number upwards goes to infinity.
pub open spec fn is_nearest(n: nat, d: nat, p: nat) -> bool {
    &&& p <= INF_PATTERN
    &&& p < INF_PATTERN ==> below_upper(n, d, p)
    &&& p > 0 ==> above_lower(n, d, p)
}

pub open spec fn below_upper(n: nat, d: nat, p: nat) -> bool {
    let bound = (magnitude(p) + magnitude(p + 1)) * d;
    2 * n < bound || (2 * n == bound && p % 2 == 0)
}

pub open spec fn above_lower(n: nat, d: nat, p: nat) -> bool {
    let bound = (magnitude((p - 1) as nat) + magnitude(p)) * d;
    2 * n > bound || (2 * n == bound && p % 2 == 0)
}

/// The pattern that `n / d` rounds to.
pub open spec fn nearest(n: nat, d: nat) -> nat {
    choose|p: nat| is_nearest(n, d, p)
}

/// Rounding has at most one answer.
pub proof fn lemma_nearest_unique(n: nat, d: nat, p: nat, q: nat)
    requires
        d > 0,
        is_nearest(n, d, p),
        is_nearest(n, d, q),
    ensures
        p == q,
{
    if p < q {
        lemma_nearest_ordered(n, d, p, q);
    } else if q < p {
        lemma_nearest_ordered(n, d, q, p);
    }
}

proof fn lemma_nearest_ordered(n: nat, d: nat, p: nat, q: nat)
    requires
        d > 0,
        p < q,
        is_nearest(n, d, p),
    ensures
        !is_nearest(n, d, q),
{
    let upper = magnitude(p) + magnitude(p + 1);
    let lower = magnitude((q - 1) as nat) + magnitude(q);
    lemma_magnitude_increases(p, (q - 1) as nat);
    lemma_magnitude_increases(p + 1, q);
    if p + 1 == q {
        assert(upper == lower);
    } else {
        assert(upper < lower);
        assert(upper * d < lower * d) by (nonlinear_arith)
            requires
                upper < lower,
                d > 0,
        ;
    }
}

pub proof fn lemma_nearest(n: nat, d: nat, p: nat)
    requires
        d > 0,
        is_nearest(n, d, p),
    ensures
        nearest(n, d) == p,
{
    lemma_nearest_unique(n, d, p, nearest(n, d));
}

/// Numerator of `sig * 2^exp`.
pub open spec fn up(exp: int) -> nat {
    if exp >= 0 {
        pow2(exp as nat)
    } else {
        1
    }
}

/// Denominator of `sig * 2^exp`.
pub open spec fn down(exp: int) -> nat {
    if exp < 0 {
        pow2((-exp) as nat)
    } else {
        1
    }
}

/// A pattern written as a binade and a significand.
pub proof fn lemma_magnitude_split(e: nat, q: nat)
    requires
        q < 2 * BINADE,
        e > 0 ==> q >= BINADE,
    ensures
        magnitude((e * BINADE + q) as nat) == q * pow2(e),
        magnitude((e * BINADE + q + 1) as nat) == (q + 1) * pow2(e),
        (e * BINADE + q) % 2 == q % 2,
{
    let b = BINADE as nat;
    let p = e * b + q;
    vstd::arithmetic::power2::lemma2_to64();
    lemma_magnitude_step(p);
    assert((e * b + q) % 2 == q % 2) by (nonlinear_arith)
        requires
            b == 0x80_0000,
    ;
    if q < b {
        assert(p == q);
        assert(q / b == 0 && q % b == q) by (nonlinear_arith)
            requires
                q < b,
        ;
        assert(q * 1 == q && (q + 1) * 1 == q + 1);
    } else {
        let o = (q - b) as nat;
        assert(p / b == e + 1 && p % b == o) by (nonlinear_arith)
            requires
                p == e * b + q,
                q == b + o,
                o < b,
        ;
        let w = pow2(e);
        assert((q + 1) * w == q * w + w) by (nonlinear_arith);
    }
}

/// Rounding `n / d` given the significand below it.
pub proof fn lemma_round(n: nat, d: nat, e: nat, q: nat)
    requires
        d > 0,
        q < 2 * BINADE,
        e > 0 ==> q >= BINADE,
        q * pow2(e) * d <= n < (q + 1) * pow2(e) * d,
        e * BINADE + q < 0xffff_ffff,
    ensures
        ({
            let p = e * BINADE + q;
            let half = (2 * q + 1) * pow2(e) * d;
            let r = if 2 * n > half || (2 * n == half && q % 2 == 1) {
                p + 1
            } else {
                p
            };
            is_nearest(n, d, if r < INF_PATTERN { r as nat } else { INF_PATTERN as nat })
        }),
{
    let p: nat = (e * BINADE + q) as nat;
    let w = pow2(e);
    let half = (2 * q + 1) * w * d;
    lemma_magnitude_split(e, q);
    lemma_magnitude_step(p);
    lemma_magnitude_step(p + 1);
    let m0 = magnitude(p);
    let m1 = magnitude(p + 1);
    let m2 = magnitude(p + 2);
    assert((m0 + m1) * d == half) by (nonlinear_arith)
        requires
            m0 == q * w,
            m1 == (q + 1) * w,
            half == (2 * q + 1) * w * d,
    ;
    assert((m1 + m2) * d > 2 * (m1 * d)) by (nonlinear_arith)
        requires
            m2 > m1,
            d > 0,
    ;
    if p > 0 {
        lemma_magnitude_step((p - 1) as nat);
        let mm = magnitude((p - 1) as nat);
        assert((mm + m0) * d < 2 * (m0 * d)) by (nonlinear_arith)
            requires
                mm < m0,
                d > 0,
        ;
    }
    let r: nat = if 2 * n > half || (2 * n == half && q % 2 == 1) {
        p + 1
    } else {
        p
    };
    assert(below_upper(n, d, r));
    assert(r > 0 ==> above_lower(n, d, r));
    if r >= INF_PATTERN {
        let i = INF_PATTERN as nat;
        lemma_magnitude_increases(i, r);
        lemma_magnitude_increases((i - 1) as nat, (r - 1) as nat);
        let a = magnitude((i - 1) as nat) + magnitude(i);
        let b = magnitude((r - 1) as nat) + magnitude(r);
        assert(a * d <= b * d) by (nonlinear_arith)
            requires
                a <= b,
        ;
        assert(i % 2 == 0);
    }
}

/// Powers of two of a rounding shift.
pub proof fn lemma_scale(e: nat, exp: int)
    ensures
        e >= exp ==> pow2(e) * down(exp) == pow2((e - exp) as nat) * up(exp),
        e <= exp ==> up(exp) == pow2((exp - e) as nat) * pow2(e) && down(exp) == 1,
        up(exp) > 0,
        down(exp) > 0,
{
    vstd::arithmetic::power2::lemma2_to64();
    let w = pow2(e);
    assert(w * 1 == w);
    if exp >= 0 {
        vstd::arithmetic::power2::lemma_pow2_pos(exp as nat);
        if e >= exp {
            vstd::arithmetic::power2::lemma_pow2_adds((e - exp) as nat, exp as nat);
            assert((e - exp) as nat + exp as nat == e);
        }
        if e <= exp {
            vstd::arithmetic::power2::lemma_pow2_adds((exp - e) as nat, e);
        }
    } else {
        vstd::arithmetic::power2::lemma_pow2_pos((-exp) as nat);
        vstd::arithmetic::power2::lemma_pow2_adds(e, (-exp) as nat);
        assert(e + (-exp) as nat == (e - exp) as nat);
        let z = pow2((e - exp) as nat);
        assert(z * 1 == z);
    }
}

/// Two to the `k`.
pub fn two_to(k: u32) -> (r: u64)
    requires
        k < 64,
    ensures
        r == pow2(k as nat),
        r > 0,
{
    proof {
        vstd::bits::lemma_u64_pow2_no_overflow(k as nat);
        vstd::bits::lemma_u64_shl_is_mul(1, k as u64);
        vstd::arithmetic::power2::lemma_pow2_pos(k as nat);
    }
    1u64 << (k as u64)
}

/// Number of significant bits.
pub fn bit_length(x: u64) -> (len: u32)
    ensures
        len <= 64,
        x < pow2(len as nat),
        x > 0 ==> len > 0 && pow2((len - 1) as nat) <= x,
        x == 0 ==> len == 0,
{
    let mut t: u64 = x;
    let mut len: u32 = 0;
    proof {
        vstd::arithmetic::power2::lemma2_to64();
    }
    while t > 0
        invariant
            len <= 64,
            t < pow2((64 - len) as nat),
            t * pow2(len as nat) <= x < (t + 1) * pow2(len as nat),
            x > 0 && t == 0 ==> len > 0 && pow2((len - 1) as nat) <= x,
            x == 0 ==> len == 0 && t == 0,
        decreases t,
    {
        let h: u64 = t / 2;
        let ghost w = pow2(len as nat);
        proof {
            vstd::arithmetic::power2::lemma2_to64();
            assert(len < 64);
            vstd::arithmetic::power2::lemma_pow2_unfold((len + 1) as nat);
            vstd::arithmetic::power2::lemma_pow2_unfold((64 - len) as nat);
            assert(h * (2 * w) <= t * w) by (nonlinear_arith)
                requires
                    2 * h <= t,
            ;
            assert((t + 1) * w <= (h + 1) * (2 * w)) by (nonlinear_arith)
                requires
                    t + 1 <= 2 * h + 2,
            ;
            assert(w <= t * w) by (nonlinear_arith)
                requires
                    t >= 1,
            ;
        }
        t = h;
        len = len + 1;
    }
    proof {
        let w = pow2(len as nat);
        assert((t + 1) * w == w) by (nonlinear_arith)
            requires
                t == 0,
        ;
    }
    len
}

/// The pattern that `sig * 2^exp` rounds to, in units of two to the minus
/// 149.
pub fn pack(sig: u64, exp: i32) -> (p: u32)
    requires
        sig < 0x8000_0000_0000_0000,
        -1000 <= exp <= 400,
    ensures
        is_nearest((sig * up(exp as int)) as nat, down(exp as int), p as nat),
        p <= INF_PATTERN,
{
    let len: u32 = bit_length(sig);
    let ghost n: nat = (sig * up(exp as int)) as nat;
    let ghost d: nat = down(exp as int);
    let ghost g: nat = up(exp as int);
    proof {
        vstd::arithmetic::power2::lemma2_to64();
        vstd::arithmetic::power2::lemma2_to64_rest();
        if len > 63 {
            assert(pow2(63) == 0x8000_0000_0000_0000);
            assert(false);
        }
    }
    if sig == 0 {
        proof {
            lemma_scale(0, exp as int);
            lemma_magnitude_step(0);
            assert(0 * g == 0);
            let c = magnitude(0) + magnitude(1);
            assert(c * d > 0) by (nonlinear_arith)
                requires
                    c > 0,
                    d > 0,
            ;
        }
        return 0;
    }
    let top: i32 = len as i32 + exp - 24;
    let e: i32 = if top > 0 {
        top
    } else {
        0
    };
    let s: i32 = e - exp;
    proof {
        lemma_scale(e as nat, exp as int);
    }
    if s <= 0 {
        let k: u32 = (-s) as u32;
        assert(len + k <= 24);
        let f: u64 = two_to(k);
        proof {
            vstd::arithmetic::power2::lemma_pow2_adds(len as nat, k as nat);
            if len + k < 24 {
                vstd::arithmetic::power2::lemma_pow2_strictly_increases((len + k) as nat, 24);
            }
            let l = pow2(len as nat);
            assert(sig * f < l * f) by (nonlinear_arith)
                requires
                    sig < l,
                    f > 0,
            ;
            if e > 0 {
                assert(len + k == 24);
                vstd::arithmetic::power2::lemma_pow2_adds((len - 1) as nat, k as nat);
                let l1 = pow2((len - 1) as nat);
                assert(sig * f >= l1 * f) by (nonlinear_arith)
                    requires
                        sig >= l1,
                ;
            }
        }
        let q: u64 = sig * f;
        let p: u32 = e as u32 * BINADE + q as u32;
        proof {
            let w = pow2(e as nat);
            vstd::arithmetic::power2::lemma_pow2_pos(e as nat);
            assert(q * w * d == n) by (nonlinear_arith)
                requires
                    q == sig * f,
                    n == sig * g,
                    g == f * w,
                    d == 1,
            ;
            assert((q + 1) * w * d > n && (2 * q + 1) * w * d > 2 * n) by (nonlinear_arith)
                requires
                    q * w * d == n,
                    w > 0,
                    d == 1,
            ;
            lemma_round(n, d, e as nat, q as nat);
        }
        return if p < INF_PATTERN {
            p
        } else {
            INF_PATTERN
        };
    }
    if s >= 64 {
        proof {
            let w = pow2(e as nat);
            vstd::arithmetic::power2::lemma_pow2_unfold(s as nat);
            if s > 64 {
                vstd::arithmetic::power2::lemma_pow2_strictly_increases(63, (s - 1) as nat);
            }
            let z = pow2(s as nat);
            assert(0 * w * d == 0) by (nonlinear_arith);
            assert((0 + 1) * w * d == z * g && (2 * 0 + 1) * w * d == z * g) by (nonlinear_arith)
                requires
                    w * d == z * g,
            ;
            assert(2 * n < z * g) by (nonlinear_arith)
                requires
                    n == sig * g,
                    2 * sig < z,
                    g > 0,
            ;
            lemma_round(n, d, 0, 0);
        }
        return 0;
    }
    let f: u64 = two_to(s as u32);
    let q: u64 = sig / f;
    let r: u64 = sig % f;
    let half: u64 = two_to((s - 1) as u32);
    proof {
        vstd::arithmetic::power2::lemma_pow2_unfold(s as nat);
        assert(sig == q * f + r && r < f) by (nonlinear_arith)
            requires
                q == sig / f,
                r == sig % f,
                f > 0,
        ;
        let w = pow2(e as nat);
        // significand bounds
        let l = pow2(len as nat);
        if len <= s {
            if len < s {
                vstd::arithmetic::power2::lemma_pow2_strictly_increases(len as nat, s as nat);
            }
            assert(q == 0) by (nonlinear_arith)
                requires
                    sig < f,
                    q == sig / f,
            ;
            assert(e == 0);
        } else {
            vstd::arithmetic::power2::lemma_pow2_adds((len - s) as nat, s as nat);
            let m = pow2((len - s) as nat);
            assert(q < m) by (nonlinear_arith)
                requires
                    sig < m * f,
                    sig == q * f + r,
                    r >= 0,
                    f > 0,
            ;
            if len - s < 24 {
                vstd::arithmetic::power2::lemma_pow2_strictly_increases((len - s) as nat, 24);
            }
            if e > 0 {
                assert(len - s == 24);
                vstd::arithmetic::power2::lemma_pow2_adds(23, s as nat);
                let m1 = pow2(23);
                assert(q >= m1) by (nonlinear_arith)
                    requires
                        sig >= m1 * f,
                        sig == q * f + r,
                        r < f,
                        f > 0,
                ;
            }
        }
        assert(q * w * d == q * f * g) by (nonlinear_arith)
            requires
                w * d == f * g,
        ;
        assert((q + 1) * w * d == (q + 1) * f * g) by (nonlinear_arith)
            requires
                w * d == f * g,
        ;
        assert((2 * q + 1) * w * d == (2 * q + 1) * f * g) by (nonlinear_arith)
            requires
                w * d == f * g,
        ;
        assert(q * f * g <= n < (q + 1) * f * g) by (nonlinear_arith)
            requires
                n == sig * g,
                sig == q * f + r,
                0 <= r < f,
                g > 0,
        ;
        assert(2 * n - (2 * q + 1) * f * g == 2 * ((r - half) * g)) by (nonlinear_arith)
            requires
                n == sig * g,
                sig == q * f + r,
                f == 2 * half,
        ;
        assert(((r - half) * g > 0) == (r > half) && ((r - half) * g == 0) == (r == half))
            by (nonlinear_arith)
            requires
                g > 0,
        ;
        lemma_round(n, d, e as nat, q as nat);
    }
    let p: u32 = e as u32 * BINADE + q as u32;
    let p: u32 = if r > half || (r == half && q % 2 == 1) {
        p + 1
    } else {
        p
    };
    if p < INF_PATTERN {
        p
    } else {
        INF_PATTERN
    }
}

} // verus!
