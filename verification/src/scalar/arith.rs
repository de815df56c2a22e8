//! Addition, multiplication, division and square root.

use super::round::{
    above_lower, below_upper, down, is_nearest, lemma_magnitude_increases, lemma_magnitude_split,
    lemma_magnitude_step, lemma_nearest, lemma_scale, nearest, pack, spacing, two_to, up,
};
use super::{magnitude, unit, Scalar, BINADE, INF_PATTERN, NAN_BITS, SIGN_BIT};
use vstd::arithmetic::power2::{
    lemma2_to64, lemma2_to64_rest, lemma_pow2_adds, lemma_pow2_pos, lemma_pow2_strictly_increases,
    lemma_pow2_unfold, pow2,
};
use vstd::prelude::*;

verus! {

/// The scalar with a given sign and magnitude pattern.
pub open spec fn signed(negative: bool, pattern: nat) -> Scalar {
    Scalar {
        bits: if negative {
            (SIGN_BIT + pattern) as u32
        } else {
            pattern as u32
        },
    }
}

/// The scalar that a signed rational rounds to, in units of two to the
/// minus 149.
pub open spec fn rounded(negative: bool, n: nat, d: nat) -> Scalar {
    signed(negative, nearest(n, d))
}

pub open spec fn abs_int(x: int) -> nat {
    if x < 0 {
        (-x) as nat
    } else {
        x as nat
    }
}

/// `p` is the pattern nearest to the square root of `n`.
pub open spec fn is_nearest_root(n: nat, p: nat) -> bool {
    &&& p < INF_PATTERN
    &&& ({
        let c = magnitude(p) + magnitude(p + 1);
        4 * n < c * c || (4 * n == c * c && p % 2 == 0)
    })
    &&& p > 0 ==> ({
        let c = magnitude((p - 1) as nat) + magnitude(p);
        4 * n > c * c || (4 * n == c * c && p % 2 == 0)
    })
}

pub open spec fn nearest_root(n: nat) -> nat {
    choose|p: nat| is_nearest_root(n, p)
}

impl Scalar {
    /// Exact sum, rounded.
    #[verifier::opaque]
    pub open spec fn add_spec(self, other: Scalar) -> Scalar {
        if self.is_nan_spec() || other.is_nan_spec() {
            Scalar { bits: NAN_BITS }
        } else if self.is_infinite_spec() {
            if other.is_infinite_spec() && self.negative() != other.negative() {
                Scalar { bits: NAN_BITS }
            } else {
                self
            }
        } else if other.is_infinite_spec() {
            other
        } else {
            let sum = self.num() + other.num();
            if sum == 0 {
                signed(self.negative() && other.negative(), 0)
            } else {
                rounded(sum < 0, abs_int(sum), 1)
            }
        }
    }

    /// Exact difference, rounded.
    pub open spec fn sub_spec(self, other: Scalar) -> Scalar {
        self.add_spec(other.neg_spec())
    }

    /// Exact product, rounded.
    #[verifier::opaque]
    pub open spec fn mul_spec(self, other: Scalar) -> Scalar {
        let negative = self.negative() != other.negative();
        if self.is_nan_spec() || other.is_nan_spec() {
            Scalar { bits: NAN_BITS }
        } else if self.is_infinite_spec() || other.is_infinite_spec() {
            if self.num() == 0 || other.num() == 0 {
                Scalar { bits: NAN_BITS }
            } else {
                signed(negative, INF_PATTERN as nat)
            }
        } else {
            rounded(negative, magnitude(self.pattern()) * magnitude(other.pattern()), unit())
        }
    }

    /// Exact quotient, rounded.
    #[verifier::opaque]
    pub open spec fn div_spec(self, other: Scalar) -> Scalar {
        let negative = self.negative() != other.negative();
        if self.is_nan_spec() || other.is_nan_spec() {
            Scalar { bits: NAN_BITS }
        } else if self.is_infinite_spec() {
            if other.is_infinite_spec() {
                Scalar { bits: NAN_BITS }
            } else {
                signed(negative, INF_PATTERN as nat)
            }
        } else if other.is_infinite_spec() {
            signed(negative, 0)
        } else if other.num() == 0 {
            if self.num() == 0 {
                Scalar { bits: NAN_BITS }
            } else {
                signed(negative, INF_PATTERN as nat)
            }
        } else {
            rounded(negative, magnitude(self.pattern()) * unit(), magnitude(other.pattern()))
        }
    }

    /// Exact square root, rounded.
    #[verifier::opaque]
    pub open spec fn sqrt_spec(self) -> Scalar {
        if self.is_nan_spec() {
            Scalar { bits: NAN_BITS }
        } else if self.num() == 0 {
            self
        } else if self.negative() {
            Scalar { bits: NAN_BITS }
        } else if self.is_infinite_spec() {
            self
        } else {
            signed(false, nearest_root(magnitude(self.pattern()) * unit()))
        }
    }
}

/// A finite pattern as significand and binade.
pub fn decode(p: u32) -> (r: (u32, u32))
    requires
        p < INF_PATTERN,
    ensures
        r.0 < 2 * BINADE,
        r.1 <= 253,
        r.1 > 0 ==> r.0 >= BINADE,
        p == r.1 * BINADE + r.0,
        magnitude(p as nat) == r.0 * pow2(r.1 as nat),
        magnitude((p + 1) as nat) == (r.0 + 1) * pow2(r.1 as nat),
{
    let binade: u32 = p / BINADE;
    let e: u32 = if binade == 0 {
        0
    } else {
        binade - 1
    };
    let sig: u32 = p - e * BINADE;
    proof {
        lemma_magnitude_split(e as nat, sig as nat);
    }
    (sig, e)
}

pub fn make(negative: bool, p: u32) -> (r: Scalar)
    requires
        p <= INF_PATTERN,
    ensures
        r == signed(negative, p as nat),
{
    if negative {
        Scalar { bits: SIGN_BIT + p }
    } else {
        Scalar { bits: p }
    }
}

/// A much smaller operand leaves the larger one unchanged.
proof fn lemma_absorbed(p: nat, e: nat, sig: nat, small: nat, sum: nat)
    requires
        p < INF_PATTERN,
        sig < 2 * BINADE,
        sig >= BINADE,
        p == e * BINADE + sig,
        e >= 39,
        small < pow2((e - 15) as nat),
        sum == magnitude(p) + small || sum + small == magnitude(p),
    ensures
        is_nearest(sum, 1, p),
        sum > 0,
{
    lemma_magnitude_split(e, sig);
    lemma_magnitude_step(p);
    lemma_magnitude_step((p - 1) as nat);
    let b = BINADE as nat;
    let w = pow2(e);
    let h = pow2((e - 1) as nat);
    lemma_pow2_unfold(e);
    lemma_pow2_unfold((e - 1) as nat);
    lemma_pow2_strictly_increases((e - 15) as nat, (e - 2) as nat);
    assert((p - 1) as nat / b >= e) by (nonlinear_arith)
        requires
            p == e * b + sig,
            sig >= b,
            b == 0x80_0000,
    ;
    let k = ((p - 1) as nat / b - 1) as nat;
    if k > e - 1 {
        lemma_pow2_strictly_increases((e - 1) as nat, k);
    }
    assert(spacing((p - 1) as nat) >= h);
    assert(magnitude(p + 1) == magnitude(p) + w) by (nonlinear_arith)
        requires
            magnitude(p) == sig * w,
            magnitude(p + 1) == (sig + 1) * w,
    ;
    assert(magnitude(p) >= w) by (nonlinear_arith)
        requires
            magnitude(p) == sig * w,
            sig >= 1,
    ;
    let c1 = magnitude(p) + magnitude(p + 1);
    let c0 = magnitude((p - 1) as nat) + magnitude(p);
    assert(c1 * 1 == c1 && c0 * 1 == c0);
}

impl Scalar {
    pub fn add(self, other: Scalar) -> (r: Scalar)
        ensures
            r == self.add_spec(other),
    {
        proof {
            reveal(Scalar::add_spec);
        }
        if self.is_nan() || other.is_nan() {
            return Scalar { bits: NAN_BITS };
        }
        if self.is_infinite() {
            if other.is_infinite() && self.is_negative() != other.is_negative() {
                return Scalar { bits: NAN_BITS };
            }
            return self;
        }
        if other.is_infinite() {
            return other;
        }
        if other.magnitude_bits() > self.magnitude_bits() {
            add_ordered(other, self)
        } else {
            add_ordered(self, other)
        }
    }

    pub fn sub(self, other: Scalar) -> (r: Scalar)
        ensures
            r == self.sub_spec(other),
    {
        self.add(other.neg())
    }

    pub fn mul(self, other: Scalar) -> (r: Scalar)
        ensures
            r == self.mul_spec(other),
    {
        proof {
            reveal(Scalar::mul_spec);
        }
        let negative: bool = self.is_negative() != other.is_negative();
        if self.is_nan() || other.is_nan() {
            return Scalar { bits: NAN_BITS };
        }
        if self.is_infinite() || other.is_infinite() {
            if self.is_zero() || other.is_zero() {
                return Scalar { bits: NAN_BITS };
            }
            return make(negative, INF_PATTERN);
        }
        let (sa, ea) = decode(self.magnitude_bits());
        let (sb, eb) = decode(other.magnitude_bits());
        proof {
            assert(sa * sb < 0x1_0000_0000_0000) by (nonlinear_arith)
                requires
                    0 <= sa < 0x100_0000,
                    0 <= sb < 0x100_0000,
            ;
        }
        let sig: u64 = sa as u64 * sb as u64;
        let exp: i32 = ea as i32 + eb as i32 - 149;
        let p: u32 = pack(sig, exp);
        proof {
            let wa = pow2(ea as nat);
            let wb = pow2(eb as nat);
            let n = magnitude(self.pattern()) * magnitude(other.pattern());
            let u = up(exp as int);
            let v = down(exp as int);
            // sig * u / v equals n / unit
            lemma_pow2_adds(ea as nat, eb as nat);
            lemma_scale((ea + eb) as nat, exp as int);
            let z = pow2((ea + eb) as nat);
            assert((ea + eb) as nat - exp == 149);
            lemma_pow2_pos(149);
            assert(z * v == unit() * u);
            assert(n == sig * z) by (nonlinear_arith)
                requires
                    n == (sa * wa) * (sb * wb),
                    z == wa * wb,
                    sig == sa * sb,
            ;
            assert((sig * u) * unit() == n * v) by (nonlinear_arith)
                requires
                    n == sig * z,
                    z * v == unit() * u,
            ;
            lemma_same_ratio((sig * u) as nat, v, n, unit(), p as nat);
            lemma_nearest(n, unit(), p as nat);
        }
        make(negative, p)
    }

    pub fn div(self, other: Scalar) -> (r: Scalar)
        ensures
            r == self.div_spec(other),
    {
        proof {
            reveal(Scalar::div_spec);
        }
        let negative: bool = self.is_negative() != other.is_negative();
        if self.is_nan() || other.is_nan() {
            return Scalar { bits: NAN_BITS };
        }
        if self.is_infinite() {
            if other.is_infinite() {
                return Scalar { bits: NAN_BITS };
            }
            return make(negative, INF_PATTERN);
        }
        if other.is_infinite() {
            return make(negative, 0);
        }
        if other.is_zero() {
            if self.is_zero() {
                return Scalar { bits: NAN_BITS };
            }
            return make(negative, INF_PATTERN);
        }
        let p: u32 = div_patterns(self.magnitude_bits(), other.magnitude_bits());
        proof {
            lemma_nearest(
                magnitude(self.pattern()) * unit(),
                magnitude(other.pattern()),
                p as nat,
            );
        }
        make(negative, p)
    }
}

/// Equal ratios round alike.
proof fn lemma_same_ratio(n1: nat, d1: nat, n2: nat, d2: nat, p: nat)
    requires
        d1 > 0,
        d2 > 0,
        n1 * d2 == n2 * d1,
        is_nearest(n1, d1, p),
    ensures
        is_nearest(n2, d2, p),
{
    if p < INF_PATTERN {
        lemma_same_side(n1, d1, n2, d2, magnitude(p) + magnitude(p + 1));
    }
    if p > 0 {
        lemma_same_side(n1, d1, n2, d2, magnitude((p - 1) as nat) + magnitude(p));
    }
}

proof fn lemma_same_side(n1: nat, d1: nat, n2: nat, d2: nat, c: nat)
    requires
        d1 > 0,
        d2 > 0,
        n1 * d2 == n2 * d1,
    ensures
        2 * n1 < c * d1 <==> 2 * n2 < c * d2,
        2 * n1 == c * d1 <==> 2 * n2 == c * d2,
{
    let x = 2 * n1 - c * d1;
    let y = 2 * n2 - c * d2;
    assert(x * d2 == y * d1) by (nonlinear_arith)
        requires
            x == 2 * n1 - c * d1,
            y == 2 * n2 - c * d2,
            n1 * d2 == n2 * d1,
    ;
    assert((x < 0) == (y < 0) && (x == 0) == (y == 0)) by (nonlinear_arith)
        requires
            x * d2 == y * d1,
            d1 > 0,
            d2 > 0,
    ;
}

/// Sum of finite scalars, the first at least as large in magnitude.
fn add_ordered(a: Scalar, b: Scalar) -> (r: Scalar)
    requires
        a.is_finite_spec(),
        b.is_finite_spec(),
        b.pattern() <= a.pattern(),
    ensures
        ({
            let sum = a.num() + b.num();
            r == if sum == 0 {
                signed(a.negative() && b.negative(), 0)
            } else {
                rounded(sum < 0, abs_int(sum), 1)
            }
        }),
{
    let pa: u32 = a.magnitude_bits();
    let pb: u32 = b.magnitude_bits();
    let (sa, ea) = decode(pa);
    let (sb, eb) = decode(pb);
    let ghost wa = pow2(ea as nat);
    let ghost wb = pow2(eb as nat);
    let ghost ma = magnitude(pa as nat);
    let ghost mb = magnitude(pb as nat);
    let negative: bool = a.is_negative();
    let opposite: bool = a.is_negative() != b.is_negative();
    proof {
        lemma_magnitude_increases(pb as nat, pa as nat);
        lemma_pow2_pos(ea as nat);
        lemma_pow2_pos(eb as nat);
        if ea < eb {
            assert(false) by (nonlinear_arith)
                requires
                    pb <= pa,
                    pa == ea * 0x80_0000 + sa,
                    pb == eb * 0x80_0000 + sb,
                    sa < 0x100_0000,
                    ea < eb,
                    ea > 0 ==> sa >= 0x80_0000,
                    sb >= 0x80_0000,
                    pa >= 0,
            ;
        }
    }
    let diff: u32 = ea - eb;
    if diff > 38 {
        proof {
            lemma_pow2_adds(24, eb as nat);
            lemma2_to64();
            assert(mb < 0x100_0000 * wb) by (nonlinear_arith)
                requires
                    mb == sb * wb,
                    sb < 0x100_0000,
                    wb > 0,
            ;
            if 24 + eb < ea - 15 {
                lemma_pow2_strictly_increases((24 + eb) as nat, (ea - 15) as nat);
            }
            let sum = a.num() + b.num();
            let m: nat = if opposite {
                (ma - mb) as nat
            } else {
                ma + mb
            };
            lemma_absorbed(pa as nat, ea as nat, sa as nat, mb, m);
            lemma_nearest(m, 1, pa as nat);
            assert(abs_int(sum) == m);
        }
        return a;
    }
    let f: u64 = two_to(diff);
    proof {
        lemma_pow2_adds(diff as nat, eb as nat);
        lemma2_to64();
        lemma2_to64_rest();
        if diff < 38 {
            lemma_pow2_strictly_increases(diff as nat, 38);
        }
        assert(sa * f <= 0x100_0000 * 0x40_0000_0000) by (nonlinear_arith)
            requires
                0 <= sa < 0x100_0000,
                0 <= f <= 0x40_0000_0000,
        ;
        assert(ma == (sa * f) * wb) by (nonlinear_arith)
            requires
                ma == sa * wa,
                wa == f * wb,
        ;
    }
    let x: u64 = sa as u64 * f;
    let y: u64 = sb as u64;
    proof {
        assert(x >= y) by (nonlinear_arith)
            requires
                x * wb >= y * wb,
                wb > 0,
        ;
    }
    let sig: u64 = if opposite {
        x - y
    } else {
        x + y
    };
    let ghost m: nat = if opposite {
        (ma - mb) as nat
    } else {
        ma + mb
    };
    proof {
        assert(m == sig * wb) by (nonlinear_arith)
            requires
                ma == x * wb,
                mb == y * wb,
                opposite ==> m == ma - mb && sig == x - y,
                !opposite ==> m == ma + mb && sig == x + y,
        ;
        assert((sig == 0) == (m == 0)) by (nonlinear_arith)
            requires
                m == sig * wb,
                wb > 0,
        ;
    }
    if sig == 0 {
        return make(negative && b.is_negative(), 0);
    }
    let p: u32 = pack(sig, eb as i32);
    proof {
        let sum = a.num() + b.num();
        assert(abs_int(sum) == m);
        assert(up(eb as int) == wb && down(eb as int) == 1);
        lemma_nearest(m, 1, p as nat);
    }
    make(negative, p)
}


/// Bounds between patterns are coarse against a long significand: a bound at
/// `p` is a multiple of four units `2^exp`.
proof fn lemma_bound_multiple(p: nat, exp: int) -> (t: nat)
    requires
        ({
            let binade = p / (BINADE as nat);
            let e: int = if binade == 0 {
                0
            } else {
                binade - 1
            };
            e - exp >= 2
        }),
    ensures
        (magnitude(p) + magnitude(p + 1)) * down(exp) == 4 * (t * up(exp)),
{
    let b = BINADE as nat;
    let binade = p / b;
    let e: nat = if binade == 0 {
        0
    } else {
        (binade - 1) as nat
    };
    let q: nat = (p - e * b) as nat;
    assert(p >= e * b && q < 2 * b && (e > 0 ==> q >= b)) by (nonlinear_arith)
        requires
            binade == p / b,
            b == 0x80_0000,
            binade == 0 ==> e == 0,
            binade > 0 ==> e == binade - 1,
            q == p - e * b,
    ;
    lemma_magnitude_split(e, q);
    lemma_scale(e, exp);
    let k = (e - exp - 2) as nat;
    lemma_pow2_unfold((k + 2) as nat);
    lemma_pow2_unfold((k + 1) as nat);
    let w = pow2(e);
    let v = down(exp);
    let u = up(exp);
    let z = pow2(k);
    let t = (2 * q + 1) * z;
    assert(magnitude(p) + magnitude(p + 1) == (2 * q + 1) * w) by (nonlinear_arith)
        requires
            magnitude(p) == q * w,
            magnitude(p + 1) == (q + 1) * w,
    ;
    assert(((2 * q + 1) * w) * v == 4 * (((2 * q + 1) * z) * u)) by (nonlinear_arith)
        requires
            w * v == (4 * z) * u,
    ;
    t
}

/// A pattern nearest to a long significand lies in a high enough binade.
proof fn lemma_high_binade(j: nat, exp: int, p: nat)
    requires
        j >= 0x4000_0000,
        exp <= 240,
        is_nearest(j * up(exp), down(exp), p),
    ensures
        p > 0 ==> ({
            let binade = (p - 1) as nat / (BINADE as nat);
            let e: int = if binade == 0 {
                0
            } else {
                binade - 1
            };
            e - exp >= 2
        }),
        ({
            let binade = p / (BINADE as nat);
            let e: int = if binade == 0 {
                0
            } else {
                binade - 1
            };
            e - exp >= 2
        }),
{
    let b = BINADE as nat;
    let u = up(exp);
    let v = down(exp);
    lemma_scale(0, exp);
    let binade = p / b;
    let e: nat = if binade == 0 {
        0
    } else {
        (binade - 1) as nat
    };
    let q: nat = (p - e * b) as nat;
    assert(p >= e * b && q < 2 * b && (e > 0 ==> q >= b)) by (nonlinear_arith)
        requires
            binade == p / b,
            b == 0x80_0000,
            binade == 0 ==> e == 0,
            binade > 0 ==> e == binade - 1,
            q == p - e * b,
    ;
    lemma_magnitude_split(e, q);
    let w = pow2(e);
    if p < INF_PATTERN && e - exp <= 3 {
        // the bound above p is below 2^30 units
        assert(magnitude(p) + magnitude(p + 1) <= 0x200_0000 * w) by (nonlinear_arith)
            requires
                magnitude(p) == q * w,
                magnitude(p + 1) == (q + 1) * w,
                q < 0x100_0000,
        ;
        lemma_scale(e, exp);
        lemma2_to64();
        if e >= exp {
            let k = (e - exp) as nat;
            if k < 3 {
                lemma_pow2_strictly_increases(k, 3);
            }
            let z = pow2(k);
            assert(w * v <= 8 * u) by (nonlinear_arith)
                requires
                    w * v == z * u,
                    z <= 8,
            ;
        } else {
            let k = (exp - e) as nat;
            lemma_pow2_pos(k);
            let z = pow2(k);
            assert(w * v <= 8 * u) by (nonlinear_arith)
                requires
                    u == z * w,
                    v == 1,
                    z >= 1,
            ;
        }
        let c = magnitude(p) + magnitude(p + 1);
        assert(c * v <= 0x1000_0000 * u) by (nonlinear_arith)
            requires
                c <= 0x200_0000 * w,
                w * v <= 8 * u,
        ;
        assert(2 * (j * u) > 0x1000_0000 * u) by (nonlinear_arith)
            requires
                j >= 0x4000_0000,
                u > 0,
        ;
        assert(false);
    }
    if p == INF_PATTERN {
        assert(binade == 255);
    }
    assert(e - exp >= 3);
    let binade1 = (p - 1) as nat / b;
    assert(p > 0 ==> binade1 >= binade - 1) by (nonlinear_arith)
        requires
            binade == p / b,
            b == 0x80_0000,
            p > 0 ==> binade1 == (p - 1) / b as int,
    ;
}

/// Rounding a quotient whose remainder was folded into an odd last bit.
proof fn lemma_folded(n: nat, d: nat, j: nat, exp: int, p: nat)
    requires
        d > 0,
        j >= 0x4000_0000,
        exp <= 240,
        j % 2 == 1,
        (j - 1) * (up(exp) * d) < n * down(exp) < (j + 1) * (up(exp) * d),
        is_nearest(j * up(exp), down(exp), p),
    ensures
        is_nearest(n, d, p),
{
    lemma_high_binade(j, exp, p);
    lemma_scale(0, exp);
    if p < INF_PATTERN {
        let t = lemma_bound_multiple(p, exp);
        lemma_folded_side(n, d, j, exp, magnitude(p) + magnitude(p + 1), t);
    }
    if p > 0 {
        let t = lemma_bound_multiple((p - 1) as nat, exp);
        lemma_folded_side(n, d, j, exp, magnitude((p - 1) as nat) + magnitude(p), t);
    }
}

/// Far beyond the largest finite number everything rounds to infinity.
proof fn lemma_overflow(n: nat, d: nat, p: nat)
    requires
        d > 0,
        n > pow2(277) * d,
    ensures
        is_nearest(n, d, p) <==> p == INF_PATTERN,
{
    let i = INF_PATTERN as nat;
    lemma_magnitude_split(254, BINADE as nat);
    lemma2_to64();
    lemma_pow2_adds(23, 254);
    let top = magnitude(i);
    assert(top == pow2(277));
    lemma_magnitude_increases((i - 1) as nat, i);
    let c = magnitude((i - 1) as nat) + top;
    assert(c * d <= 2 * (top * d)) by (nonlinear_arith)
        requires
            c <= 2 * top,
    ;
    assert(above_lower(n, d, i));
    if p < i {
        lemma_magnitude_increases(p, i);
        lemma_magnitude_increases(p + 1, i);
        let c = magnitude(p) + magnitude(p + 1);
        assert(c * d <= 2 * (top * d)) by (nonlinear_arith)
            requires
                c <= 2 * top,
        ;
        assert(!below_upper(n, d, p));
    }
}

proof fn lemma_folded_side(n: nat, d: nat, j: nat, exp: int, c: nat, t: nat)
    requires
        d > 0,
        j % 2 == 1,
        up(exp) > 0,
        down(exp) > 0,
        (j - 1) * (up(exp) * d) < n * down(exp) < (j + 1) * (up(exp) * d),
        c * down(exp) == 4 * (t * up(exp)),
    ensures
        2 * (j * up(exp)) < c * down(exp) <==> 2 * n < c * d,
        2 * (j * up(exp)) > c * down(exp) <==> 2 * n > c * d,
{
    let u = up(exp);
    let v = down(exp);
    let k = j / 2;
    assert(j == 2 * k + 1);
    let ud = u * d;
    // 2 * n * v lies strictly between 4 k u d and 4 (k + 1) u d
    assert((j - 1) * ud == 2 * (k * ud) && (j + 1) * ud == 2 * (k * ud) + 2 * ud)
        by (nonlinear_arith)
        requires
            j == 2 * k + 1,
    ;
    let x = 2 * n - c * d;
    assert(x * v == 2 * (n * v) - 4 * (t * ud)) by (nonlinear_arith)
        requires
            x == 2 * n - c * d,
            c * v == 4 * (t * u),
            ud == u * d,
    ;
    assert(2 * (j * u) == 4 * (k * u) + 2 * u) by (nonlinear_arith)
        requires
            j == 2 * k + 1,
    ;
    assert(ud > 0) by (nonlinear_arith)
        requires
            ud == u * d,
            u > 0,
            d > 0,
    ;
    if t >= k + 1 {
        assert(t * ud >= k * ud + ud && t * u >= k * u + u) by (nonlinear_arith)
            requires
                t >= k + 1,
                ud > 0,
                u > 0,
        ;
        assert(x * v < 0);
        assert(x < 0) by (nonlinear_arith)
            requires
                x * v < 0,
                v > 0,
        ;
    } else {
        assert(t * ud <= k * ud && t * u <= k * u) by (nonlinear_arith)
            requires
                t <= k,
                ud > 0,
                u > 0,
        ;
        assert(x * v > 0);
        assert(x > 0) by (nonlinear_arith)
            requires
                x * v > 0,
                v > 0,
        ;
    }
}

/// A finite nonzero pattern with its significand shifted to full length.
fn normalise(p: u32) -> (r: (u32, i32))
    requires
        0 < p < INF_PATTERN,
    ensures
        BINADE <= r.0 < 2 * BINADE,
        -23 <= r.1 <= 253,
        magnitude(p as nat) * down(r.1 as int) == r.0 * up(r.1 as int),
{
    let (s0, e0) = decode(p);
    let mut sig: u32 = s0;
    let mut exp: i32 = e0 as i32;
    let ghost m = magnitude(p as nat);
    proof {
        lemma2_to64();
        assert(s0 > 0) by {
            if s0 == 0 {
                assert(e0 == 0);
            }
        }
        assert(m * 1 == m);
    }
    let mut k: u32 = 0;
    while sig < BINADE
        invariant
            0 < sig < 2 * BINADE,
            k <= 23,
            sig >= pow2(k as nat),
            -(k as int) <= exp <= 253,
            exp > 0 ==> sig >= BINADE,
            exp < 0 ==> exp == -k,
            k > 0 ==> exp == -k,
            m * down(exp as int) == sig * up(exp as int),
        decreases 2 * BINADE - sig,
    {
        proof {
            lemma2_to64();
            if k >= 23 {
                assert(pow2(23) == 0x80_0000);
                assert(false);
            }
            assert(exp <= 0);
            lemma_pow2_unfold((k + 1) as nat);
            assert(down((exp - 1) as int) == 2 * down(exp as int)) by {
                lemma_pow2_unfold((1 - exp) as nat);
            }
            let v = down(exp as int);
            assert(m * (2 * v) == 2 * (m * v)) by (nonlinear_arith);
            assert(sig * 1 == sig && (2 * sig) * 1 == 2 * sig);
        }
        sig = sig * 2;
        exp = exp - 1;
        k = k + 1;
    }
    (sig, exp)
}

/// Quotient of two finite patterns, the second nonzero.
fn div_patterns(pa: u32, pb: u32) -> (p: u32)
    requires
        pa < INF_PATTERN,
        0 < pb < INF_PATTERN,
    ensures
        p <= INF_PATTERN,
        magnitude(pb as nat) > 0,
        is_nearest(magnitude(pa as nat) * unit(), magnitude(pb as nat), p as nat),
{
    let ghost ma = magnitude(pa as nat);
    let ghost mb = magnitude(pb as nat);
    proof {
        lemma_magnitude_increases(0, pb as nat);
        lemma_pow2_pos(149);
    }
    if pa == 0 {
        proof {
            assert(ma == 0);
            lemma_magnitude_step(0);
            assert(0 * unit() == 0) by (nonlinear_arith);
            let c = magnitude(0) + magnitude(1);
            assert(c * mb > 0) by (nonlinear_arith)
                requires
                    c > 0,
                    mb > 0,
            ;
        }
        return 0;
    }
    let (sa, ea) = normalise(pa);
    let (sb, eb) = normalise(pb);
    let x: u64 = sa as u64 * 0x40_0000_0000;
    let y: u64 = sb as u64;
    let q: u64 = x / y;
    let rem: u64 = x % y;
    let exp: i32 = ea - eb + 110;
    let ghost n = ma * unit();
    proof {
        assert(x == q * y + rem && rem < y) by (nonlinear_arith)
            requires
                q == x / y,
                rem == x % y,
                y > 0,
        ;
        assert(0x20_0000_0000 <= q <= 0x80_0000_0000) by (nonlinear_arith)
            requires
                x == q * y + rem,
                0 <= rem < y,
                0x80_0000 <= y < 0x100_0000,
                0x80_0000 * 0x40_0000_0000 <= x < 0x100_0000 * 0x40_0000_0000,
        ;
    }
    let fold: u64 = if rem == 0 {
        0
    } else {
        1
    };
    let j: u64 = 2 * q + fold;
    let p: u32 = pack(j, exp);
    proof {
        let u = up(exp as int);
        let v = down(exp as int);
        lemma_scale(0, exp as int);
        lemma_div_scale(ma, mb, sa as nat, sb as nat, ea as int, eb as int);
        // n * v * (2 * y) == (x * 2) ... in units of u * mb
        assert(n * v * y == (2 * x) * (u * mb));
        let um = u * mb;
        assert(um > 0) by (nonlinear_arith)
            requires
                um == u * mb,
                u > 0,
                mb > 0,
        ;
        let nv = n * v;
        if rem == 0 {
            assert(nv == (2 * q) * um) by (nonlinear_arith)
                requires
                    nv * y == (2 * x) * um,
                    x == q * y,
                    y > 0,
            ;
            assert((j * u) * mb == n * v) by (nonlinear_arith)
                requires
                    nv == (2 * q) * um,
                    um == u * mb,
                    nv == n * v,
                    j == 2 * q,
            ;
            lemma_same_ratio((j * u) as nat, v, n, mb, p as nat);
        } else {
            assert((2 * q) * um < nv < (2 * q + 2) * um) by (nonlinear_arith)
                requires
                    nv * y == (2 * x) * um,
                    x == q * y + rem,
                    0 < rem < y,
                    um > 0,
            ;
            if exp <= 240 {
                lemma_folded(n, mb, j as nat, exp as int, p as nat);
            } else {
                lemma2_to64();
                lemma2_to64_rest();
                lemma_pow2_adds(37, 240);
                lemma_pow2_strictly_increases(240, exp as nat);
                let w = pow2(240);
                assert(pow2(277) == 0x20_0000_0000 * w);
                assert(j * u > 0x20_0000_0000 * w) by (nonlinear_arith)
                    requires
                        j >= 0x20_0000_0000,
                        u > w,
                ;
                assert(v == 1);
                assert((0x20_0000_0000 * w) * 1 == 0x20_0000_0000 * w);
                lemma_overflow((j * u) as nat, v, p as nat);
                assert(n > (0x20_0000_0000 * w) * mb) by (nonlinear_arith)
                    requires
                        n * v > (2 * q) * um,
                        v == 1,
                        um == u * mb,
                        2 * q >= 0x20_0000_0000,
                        u > w,
                        mb > 0,
                ;
                lemma_overflow(n, mb, p as nat);
            }
        }
    }
    p
}

/// Scale bookkeeping of a normalised quotient.
proof fn lemma_div_scale(ma: nat, mb: nat, sa: nat, sb: nat, ea: int, eb: int)
    requires
        -23 <= ea <= 253,
        -23 <= eb <= 253,
        ma * down(ea) == sa * up(ea),
        mb * down(eb) == sb * up(eb),
    ensures
        ({
            let exp = ea - eb + 110;
            (ma * unit()) * down(exp) * sb == (2 * (sa * 0x40_0000_0000)) * (up(exp) * mb)
        }),
{
    let exp = ea - eb + 110;
    let u = up(exp);
    let v = down(exp);
    let ua = up(ea);
    let va = down(ea);
    let ub = up(eb);
    let vb = down(eb);
    // A common exponent above all of them turns every factor into a power.
    let big: nat = 400;
    lemma_scale(big, ea);
    lemma_scale(big, eb);
    lemma_scale(big, exp);
    let w = pow2(big);
    let wa = pow2((big - ea) as nat);
    let wb = pow2((big - eb) as nat);
    let we = pow2((big - exp) as nat);
    lemma_pow2_pos(big);
    lemma_pow2_pos((big - ea) as nat);
    lemma_pow2_pos((big - eb) as nat);
    lemma_pow2_pos((big - exp) as nat);
    lemma2_to64();
    lemma2_to64_rest();
    let c = pow2(39);
    assert(c == 2 * 0x40_0000_0000);
    let t = unit();
    lemma_pow2_adds(149, (big - exp) as nat);
    lemma_pow2_adds((149 + (big - exp)) as nat, (big - eb) as nat);
    lemma_pow2_adds(39, (big - ea) as nat);
    lemma_pow2_adds((39 + (big - ea)) as nat, big);
    assert((149 + (big - exp)) as nat + (big - eb) as nat == (39 + (big - ea)) as nat + big);
    assert(t * we * wb == c * wa * w);
    assert(ma * wa == sa * w) by (nonlinear_arith)
        requires
            ma * va == sa * ua,
            w * va == wa * ua,
            va > 0,
            ua > 0,
    ;
    assert(mb * wb == sb * w) by (nonlinear_arith)
        requires
            mb * vb == sb * ub,
            w * vb == wb * ub,
            vb > 0,
            ub > 0,
    ;
    lemma_cancel(
        ma as int,
        mb as int,
        sa as int,
        sb as int,
        u as int,
        v as int,
        w as int,
        wa as int,
        wb as int,
        we as int,
        t as int,
        c as int,
    );
    assert(c * sa == 2 * (sa * 0x40_0000_0000));
}

proof fn lemma_cancel(
    ma: int,
    mb: int,
    sa: int,
    sb: int,
    u: int,
    v: int,
    w: int,
    wa: int,
    wb: int,
    we: int,
    t: int,
    c: int,
)
    requires
        ma * wa == sa * w,
        mb * wb == sb * w,
        w * v == we * u,
        t * we * wb == c * wa * w,
        wa > 0,
        wb > 0,
        w > 0,
    ensures
        ma * t * v * sb == c * sa * (u * mb),
{
    let l = ma * t * v * sb;
    let r = c * sa * (u * mb);
    // scale both sides by wa, then w, then wb
    let l1 = sa * w * t * v * sb;
    assert((ma * t * v * sb) * wa == (t * v * sb) * (ma * wa)) by (nonlinear_arith);
    assert(sa * w * t * v * sb == (t * v * sb) * (sa * w)) by (nonlinear_arith);
    assert(l * wa == l1);
    let l2 = sa * t * sb * we * u;
    assert(sa * w * t * v * sb == (sa * t * sb) * (w * v)) by (nonlinear_arith);
    assert(sa * t * sb * we * u == (sa * t * sb) * (we * u)) by (nonlinear_arith);
    assert(l1 == l2);
    let l3 = sa * sb * u * (c * wa * w);
    assert((sa * t * sb * we * u) * wb == (sa * sb * u) * (t * we * wb)) by (nonlinear_arith);
    assert(l2 * wb == l3);
    let r1 = c * sa * u * (sb * w);
    assert((c * sa * (u * mb)) * wb == (c * sa * u) * (mb * wb)) by (nonlinear_arith);
    assert(r * wb == r1);
    let x = c * sa * u;
    let y = sa * sb * u;
    let q = wa * w;
    assert((x * (sb * w)) * wa == (x * sb) * (wa * w)) by (nonlinear_arith);
    assert((c * sa * u) * sb == c * (sa * sb * u)) by (nonlinear_arith);
    assert((c * y) * q == y * (c * q)) by (nonlinear_arith);
    assert(c * (wa * w) == c * wa * w) by (nonlinear_arith);
    assert(r1 * wa == l3);
    let k = wa * wb;
    assert(l * k == l3 && r * k == l3) by (nonlinear_arith)
        requires
            k == wa * wb,
            l * wa == l2,
            l2 * wb == l3,
            r * wb == r1,
            r1 * wa == l3,
    ;
    assert(k > 0) by (nonlinear_arith)
        requires
            k == wa * wb,
            wa > 0,
            wb > 0,
    ;
    assert(l == r) by (nonlinear_arith)
        requires
            l * k == r * k,
            k > 0,
    ;
}


/// A square root has at most one rounding.
proof fn lemma_nearest_root(n: nat, p: nat)
    requires
        is_nearest_root(n, p),
    ensures
        nearest_root(n) == p,
{
    let q = nearest_root(n);
    if p < q {
        lemma_root_ordered(n, p, q);
    } else if q < p {
        lemma_root_ordered(n, q, p);
    }
}

proof fn lemma_root_ordered(n: nat, p: nat, q: nat)
    requires
        p < q,
        is_nearest_root(n, p),
    ensures
        !is_nearest_root(n, q),
{
    let upper = magnitude(p) + magnitude(p + 1);
    let lower = magnitude((q - 1) as nat) + magnitude(q);
    lemma_magnitude_increases(p, (q - 1) as nat);
    lemma_magnitude_increases(p + 1, q);
    if p + 1 != q {
        assert(upper * upper < lower * lower) by (nonlinear_arith)
            requires
                upper < lower,
        ;
    }
}

/// Largest integer whose square does not exceed `m`.
fn integer_root(m: u64) -> (r: u64)
    requires
        m < 0x8000_0000_0000_0000,
    ensures
        r * r <= m < (r + 1) * (r + 1),
        r < 0x1_0000_0000,
{
    let mut r: u64 = 0;
    let mut bit: u64 = 0x8000_0000;
    let ghost mut k: nat = 31;
    proof {
        lemma2_to64();
    }
    while bit > 0
        invariant
            m < 0x8000_0000_0000_0000,
            bit == 0 || (k <= 31 && bit == pow2(k)),
            bit <= 0x8000_0000,
            bit > 0 ==> r + 2 * bit <= 0x1_0000_0000,
            bit == 0 ==> r < 0x1_0000_0000,
            bit > 0 ==> r * r <= m < (r + 2 * bit) * (r + 2 * bit),
            bit == 0 ==> r * r <= m < (r + 1) * (r + 1),
        decreases bit,
    {
        let c: u64 = r + bit;
        proof {
            assert(c * c <= 0xffff_ffff * 0xffff_ffff) by (nonlinear_arith)
                requires
                    0 <= c <= 0xffff_ffff,
            ;
            lemma2_to64();
            if k > 0 {
                lemma_pow2_unfold(k);
            }
        }
        let ghost old_bit = bit;
        if c * c <= m {
            r = c;
        }
        bit = bit / 2;
        proof {
            if k > 0 {
                assert(2 * bit == old_bit);
                k = (k - 1) as nat;
            } else {
                assert(old_bit == 1);
            }
        }
    }
    r
}

/// A root whose remainder was folded into an odd last bit.
proof fn lemma_root_rounding(n: nat, m: nat, root: nat, j: nat, exp: nat, p: nat)
    requires
        root * root <= m < (root + 1) * (root + 1),
        j == if root * root == m {
            2 * root
        } else {
            2 * root + 1
        },
        0x4000_0000 <= j < 0x4_0000_0000,
        exp <= 200,
        n == m * (2 * pow2(exp)) * (2 * pow2(exp)),
        is_nearest(j * up(exp as int), down(exp as int), p),
    ensures
        is_nearest_root(n, p),
{
    let u = pow2(exp);
    lemma_pow2_pos(exp);
    let ju = j * u;
    lemma_high_binade(j, exp as int, p);
    if p == INF_PATTERN {
        lemma2_to64();
        lemma2_to64_rest();
        lemma_magnitude_split(254, BINADE as nat);
        lemma_pow2_adds(23, 254);
        lemma_pow2_adds(34, 200);
        lemma_pow2_strictly_increases(236, 277);
        lemma_pow2_adds(2, 234);
        if exp < 200 {
            lemma_pow2_strictly_increases(exp, 200);
        }
        let w = pow2(200);
        assert(ju < 0x4_0000_0000 * w) by (nonlinear_arith)
            requires
                ju == j * u,
                j < 0x4_0000_0000,
                0 < u <= w,
        ;
        let c = magnitude((p - 1) as nat) + magnitude(p);
        assert(c * 1 == c);
        assert(false);
    }
    let c = magnitude(p) + magnitude(p + 1);
    assert(c * 1 == c);
    let t = lemma_bound_multiple(p, exp as int);
    lemma_root_side(n, m, root, j, u, c, t);
    if p > 0 {
        let c = magnitude((p - 1) as nat) + magnitude(p);
        assert(c * 1 == c);
        let t = lemma_bound_multiple((p - 1) as nat, exp as int);
        lemma_root_side(n, m, root, j, u, c, t);
    }
}

proof fn lemma_root_side(n: nat, m: nat, root: nat, j: nat, u: nat, c: nat, t: nat)
    requires
        u > 0,
        root * root <= m < (root + 1) * (root + 1),
        j == if root * root == m {
            2 * root
        } else {
            2 * root + 1
        },
        n == m * (2 * u) * (2 * u),
        c == 4 * (t * u),
    ensures
        2 * (j * u) < c <==> 4 * n < c * c,
        2 * (j * u) == c <==> 4 * n == c * c,
{
    // both sides in units of 4 u: 4 n == m (4 u)^2 and c == t (4 u)
    let f = 4 * u;
    assert(4 * n == m * (f * f)) by (nonlinear_arith)
        requires
            n == m * (2 * u) * (2 * u),
            f == 4 * u,
    ;
    assert(c * c == (t * t) * (f * f)) by (nonlinear_arith)
        requires
            c == 4 * (t * u),
            f == 4 * u,
    ;
    let g = f * f;
    assert(g > 0) by (nonlinear_arith)
        requires
            g == f * f,
            f > 0,
    ;
    assert((m * g < (t * t) * g) == (m < t * t) && (m * g == (t * t) * g) == (m == t * t))
        by (nonlinear_arith)
        requires
            g > 0,
    ;
    if root * root == m {
        assert(2 * (j * u) == root * f) by (nonlinear_arith)
            requires
                j == 2 * root,
                f == 4 * u,
        ;
        assert(c == t * f) by (nonlinear_arith)
            requires
                c == 4 * (t * u),
                f == 4 * u,
        ;
        assert((root * f < t * f) == (root < t) && (root * f == t * f) == (root == t))
            by (nonlinear_arith)
            requires
                f > 0,
        ;
        assert((root * root < t * t) == (root < t) && (root * root == t * t) == (root == t))
            by (nonlinear_arith);
    } else {
        assert(2 * (j * u) == root * f + 2 * u) by (nonlinear_arith)
            requires
                j == 2 * root + 1,
                f == 4 * u,
        ;
        assert(c == t * f) by (nonlinear_arith)
            requires
                c == 4 * (t * u),
                f == 4 * u,
        ;
        if t >= root + 1 {
            assert(t * f >= root * f + f && t * t >= (root + 1) * (root + 1)) by (nonlinear_arith)
                requires
                    t >= root + 1,
                    f > 0,
            ;
        } else {
            assert(t * f <= root * f && t * t <= root * root) by (nonlinear_arith)
                requires
                    t <= root,
                    f > 0,
            ;
        }
    }
}

impl Scalar {
    pub fn sqrt(self) -> (r: Scalar)
        ensures
            r == self.sqrt_spec(),
    {
        proof {
            reveal(Scalar::sqrt_spec);
        }
        if self.is_nan() {
            return Scalar { bits: NAN_BITS };
        }
        if self.is_zero() {
            return self;
        }
        if self.is_negative() {
            return Scalar { bits: NAN_BITS };
        }
        if self.is_infinite() {
            return self;
        }
        let b: u32 = self.magnitude_bits();
        proof {
            if b == 0 {
                assert(magnitude(0) == 0);
            }
        }
        let (sig, e) = normalise(b);
        let shift: u32 = if (e + 149 - 38) % 2 == 0 {
            38
        } else {
            39
        };
        let f: u64 = two_to(shift);
        proof {
            lemma2_to64();
            lemma2_to64_rest();
            assert(sig * f < 0x8000_0000_0000_0000 && sig * f >= 0x80_0000 * 0x40_0000_0000)
                by (nonlinear_arith)
                requires
                    0x80_0000 <= sig < 0x100_0000,
                    0x40_0000_0000 <= f <= 0x80_0000_0000,
            ;
        }
        let m: u64 = sig as u64 * f;
        let root: u64 = integer_root(m);
        let exact: bool = root * root == m;
        let j: u64 = if exact {
            2 * root
        } else {
            2 * root + 1
        };
        let exp: i32 = (e + 149 - shift as i32) / 2 - 1;
        proof {
            assert(2 * (exp + 1) == e + 149 - shift);
            assert(0x2000_0000 <= root < 0x1_0000_0000) by (nonlinear_arith)
                requires
                    m < (root + 1) * (root + 1),
                    m >= 0x80_0000 * 0x40_0000_0000,
                    root < 0x1_0000_0000,
            ;
        }
        let p: u32 = pack(j, exp);
        proof {
            let mag = magnitude(b as nat);
            let n = mag * unit();
            let x = exp as nat;
            let u = pow2(x);
            let k = (e + 149) as nat;
            // n == sig * 2^k
            assert(n == sig * pow2(k)) by {
                if e >= 0 {
                    lemma_pow2_adds(e as nat, 149);
                    assert(mag * 1 == mag);
                    let we = pow2(e as nat);
                    assert(n == sig * (we * unit())) by (nonlinear_arith)
                        requires
                            n == mag * unit(),
                            mag == sig * we,
                    ;
                } else {
                    lemma_pow2_adds((-e) as nat, k);
                    let wd = pow2((-e) as nat);
                    let wk = pow2(k);
                    assert(sig * 1 == sig);
                    assert(n == sig * wk) by (nonlinear_arith)
                        requires
                            n == mag * unit(),
                            unit() == wd * wk,
                            mag * wd == sig,
                    ;
                }
            }
            lemma_pow2_unfold((x + 1) as nat);
            lemma_pow2_adds((x + 1) as nat, (x + 1) as nat);
            lemma_pow2_adds(shift as nat, (2 * (x + 1)) as nat);
            assert(shift + 2 * (x + 1) == k);
            let z = pow2((x + 1) as nat);
            let wk = pow2(k);
            assert(n == m * (2 * u) * (2 * u)) by (nonlinear_arith)
                requires
                    n == sig * wk,
                    wk == f * (z * z),
                    z == 2 * u,
                    m == sig * f,
            ;
            lemma_root_rounding(n, m as nat, root as nat, j as nat, x, p as nat);
            lemma_nearest_root(n, p as nat);
        }
        make(false, p)
    }
}

} // verus!
