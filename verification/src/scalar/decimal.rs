//! Scalars as decimal text.

use super::arith::decode;
use super::convert::{lemma_large, lemma_split, WHOLE_PATTERN};
use super::round::two_to;
use super::{magnitude, unit, Scalar, BINADE, INF_PATTERN};
use crate::text::{digits, push_str, push_wide};
use vstd::arithmetic::power2::{
    lemma2_to64, lemma2_to64_rest, lemma_pow2_adds, lemma_pow2_pos, lemma_pow2_strictly_increases,
    lemma_pow2_unfold, pow2,
};
use vstd::prelude::*;

verus! {

/// The integer nearest to `n / d`; halfway cases go to the even one.
pub open spec fn half_even(n: nat, d: nat) -> nat {
    let q = n / d;
    let r = n % d;
    if 2 * r > d || (2 * r == d && q % 2 == 1) {
        q + 1
    } else {
        q
    }
}

/// Ten to the number of decimal places, for none or one.
pub open spec fn scale_of(tenths: bool) -> nat {
    if tenths {
        10
    } else {
        1
    }
}

/// Digits of a magnitude with no decimal place or one.
pub open spec fn fixed_digits(m: nat, tenths: bool) -> Seq<char> {
    let n = half_even(m * scale_of(tenths), unit());
    if tenths {
        digits(n / 10) + seq!['.'] + digits(n % 10)
    } else {
        digits(n)
    }
}

/// The sign as text: a plus only on request.
pub open spec fn sign_text(negative: bool, plus: bool) -> Seq<char> {
    if negative {
        seq!['-']
    } else if plus {
        seq!['+']
    } else {
        Seq::empty()
    }
}

impl Scalar {
    /// The value rounded to no decimal place or one, with its sign.
    pub open spec fn fixed(self, tenths: bool, plus: bool) -> Seq<char> {
        if self.is_nan_spec() {
            "NaN"@
        } else if self.is_infinite_spec() {
            sign_text(self.negative(), plus) + "inf"@
        } else {
            sign_text(self.negative(), plus) + fixed_digits(magnitude(self.pattern()), tenths)
        }
    }
}

/// A small magnitude in tenths or units, rounded.
fn rounded_small(p: u32, tenths: bool) -> (n: u64)
    requires
        p < WHOLE_PATTERN,
    ensures
        n == half_even(magnitude(p as nat) * scale_of(tenths), unit()),
{
    let (sig, e) = decode(p);
    let scale: u64 = if tenths {
        10
    } else {
        1
    };
    let s: u64 = sig as u64 * scale;
    proof {
        assert(e < 149) by (nonlinear_arith)
            requires
                p == e * BINADE + sig,
                p < WHOLE_PATTERN,
                e > 0 ==> sig >= BINADE,
                BINADE == 0x80_0000,
                WHOLE_PATTERN == 0x4b00_0000,
        ;
        let w = pow2(e as nat);
        assert((sig * w) * scale == (sig * scale) * w) by (nonlinear_arith);
        lemma_scaled_split(s as nat, e as nat, magnitude(p as nat) * scale as nat);
        lemma2_to64();
        lemma2_to64_rest();
    }
    let k: u32 = 149 - e;
    if k >= 60 {
        proof {
            if k > 60 {
                lemma_pow2_strictly_increases(60, k as nat);
            }
            let d = pow2(k as nat);
            vstd::arithmetic::div_mod::lemma_basic_div(s as int, d as int);
            vstd::arithmetic::div_mod::lemma_small_mod(s as nat, d);
        }
        return 0;
    }
    let d: u64 = two_to(k);
    proof {
        if k < 59 {
            lemma_pow2_strictly_increases(k as nat, 59);
        }
        assert(s / d <= s) by (nonlinear_arith)
            requires
                d > 0,
                s >= 0,
        ;
        assert(s % d < d);
    }
    let q: u64 = s / d;
    let r: u64 = s % d;
    if 2 * r > d || (2 * r == d && q % 2 == 1) {
        q + 1
    } else {
        q
    }
}

/// Rounding commutes with a power of two that divides both sides.
proof fn lemma_scaled_split(s: nat, e: nat, m: nat)
    requires
        e < 149,
        m == s * pow2(e),
    ensures
        pow2((149 - e) as nat) > 0,
        half_even(m, unit()) == half_even(s, pow2((149 - e) as nat)),
{
    let d = pow2((149 - e) as nat);
    let w = pow2(e);
    lemma_split(s, e, m);
    lemma_pow2_pos(e);
    lemma_pow2_adds((149 - e) as nat, e);
    let r = s % d;
    assert((2 * (r * w) > d * w) == (2 * r > d) && (2 * (r * w) == d * w) == (2 * r == d))
        by (nonlinear_arith)
        requires
            w > 0,
    ;
}

/// A large magnitude in whole units.
fn whole_large(p: u32) -> (n: u128)
    requires
        WHOLE_PATTERN <= p < INF_PATTERN,
    ensures
        magnitude(p as nat) == n * unit(),
{
    let (sig, e) = decode(p);
    proof {
        assert(149 <= e <= 253 && sig >= BINADE) by (nonlinear_arith)
            requires
                p == e * BINADE + sig,
                WHOLE_PATTERN <= p < INF_PATTERN,
                sig < 2 * BINADE,
                e > 0 ==> sig >= BINADE,
                BINADE == 0x80_0000,
                WHOLE_PATTERN == 0x4b00_0000,
                INF_PATTERN == 0x7f80_0000,
        ;
        lemma_large(sig as nat, e as nat, magnitude(p as nat));
        lemma2_to64();
        assert(sig * 1 == sig);
    }
    let k: u32 = e - 149;
    let mut n: u128 = sig as u128;
    let mut i: u32 = 0;
    while i < k
        invariant
            i <= k <= 104,
            sig < 0x100_0000,
            n == sig * pow2(i as nat),
        decreases k - i,
    {
        proof {
            lemma_pow2_unfold((i + 1) as nat);
            let w = pow2(i as nat);
            lemma2_to64();
            lemma2_to64_rest();
            if i < 103 {
                lemma_pow2_strictly_increases(i as nat, 103);
            }
            lemma_pow2_adds(53, 50);
            assert(sig * (2 * w) == 2 * (sig * w)) by (nonlinear_arith);
            assert(pow2(103) == 0x20_0000_0000_0000 * 0x4_0000_0000_0000);
            assert(2 * (sig * w) <= 2 * (0xff_ffff * 0x20_0000_0000_0000 * 0x4_0000_0000_0000))
                by (nonlinear_arith)
                requires
                    sig <= 0xff_ffff,
                    0 <= w <= 0x20_0000_0000_0000 * 0x4_0000_0000_0000,
            ;
        }
        n = n * 2;
        i += 1;
    }
    n
}

/// A whole number of units needs no rounding.
proof fn lemma_whole_digits(m: nat, n: nat, tenths: bool)
    requires
        m == n * unit(),
    ensures
        half_even(m * scale_of(tenths), unit()) == n * scale_of(tenths),
{
    let c = scale_of(tenths);
    let u = unit();
    lemma_pow2_pos(149);
    assert((n * u) * c == (n * c) * u) by (nonlinear_arith);
    vstd::arithmetic::div_mod::lemma_fundamental_div_mod_converse(
        (m * c) as int,
        u as int,
        (n * c) as int,
        0,
    );
}

/// Append a scalar rounded to no decimal place or one.
pub fn push_fixed(out: &mut String, s: Scalar, tenths: bool, plus: bool)
    ensures
        final(out)@ == old(out)@ + s.fixed(tenths, plus),
{
    let ghost before = out@;
    if s.is_nan() {
        push_str(out, "NaN");
        return;
    }
    if s.is_negative() {
        out.push('-');
    } else if plus {
        out.push('+');
    }
    proof {
        assert(out@ =~= before + sign_text(s.negative(), plus));
    }
    let p: u32 = s.magnitude_bits();
    if p >= INF_PATTERN {
        push_str(out, "inf");
        proof {
            assert(out@ =~= before + s.fixed(tenths, plus));
        }
        return;
    }
    if p < WHOLE_PATTERN {
        let n: u64 = rounded_small(p, tenths);
        if tenths {
            push_wide(out, (n / 10) as u128);
            out.push('.');
            push_wide(out, (n % 10) as u128);
        } else {
            push_wide(out, n as u128);
        }
    } else {
        let n: u128 = whole_large(p);
        proof {
            lemma_whole_digits(magnitude(p as nat), n as nat, tenths);
        }
        push_wide(out, n);
        if tenths {
            out.push('.');
            push_wide(out, 0);
            proof {
                assert((n * 10) / 10 == n && (n * 10) % 10 == 0);
            }
        }
    }
    proof {
        assert(out@ =~= before + s.fixed(tenths, plus));
    }
}

} // verus!
