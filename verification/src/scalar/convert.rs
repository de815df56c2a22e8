//! Conversion to and from integers, and rounding to whole numbers.

use super::arith::{abs_int, decode, make, rounded, signed};
use super::round::{lemma_magnitude_increases, lemma_nearest, pack, two_to};
use super::{magnitude, unit, Scalar, BINADE, INF_PATTERN, NAN_BITS};
use vstd::arithmetic::div_mod::{lemma_fundamental_div_mod, lemma_fundamental_div_mod_converse};
use vstd::arithmetic::power2::{
    lemma2_to64, lemma2_to64_rest, lemma_pow2_adds, lemma_pow2_pos, lemma_pow2_strictly_increases,
    pow2,
};
use vstd::prelude::*;

verus! {

/// Magnitude patterns from here on denote whole numbers.
pub const WHOLE_PATTERN: u32 = 0x4b00_0000;

/// `x` forced into `low..=high`.
pub open spec fn clamp_int(x: int, low: int, high: int) -> int {
    if x < low {
        low
    } else if x > high {
        high
    } else {
        x
    }
}

impl Scalar {
    /// The scalar nearest to an integer.
    #[verifier::opaque]
    pub open spec fn from_int_spec(x: int) -> Scalar {
        rounded(x < 0, abs_int(x) * unit(), 1)
    }

    /// A whole number with the sign that a zero result takes.
    pub open spec fn whole(q: int, zero_negative: bool) -> Scalar {
        if q == 0 {
            signed(zero_negative, 0)
        } else {
            Scalar::from_int_spec(q)
        }
    }

    /// Largest whole number not above the value.
    #[verifier::opaque]
    pub open spec fn floor_spec(self) -> Scalar {
        if self.is_nan_spec() {
            Scalar { bits: NAN_BITS }
        } else if self.is_infinite_spec() {
            self
        } else {
            Scalar::whole(self.num() / (unit() as int), self.negative())
        }
    }

    /// Smallest whole number not below the value.
    #[verifier::opaque]
    pub open spec fn ceil_spec(self) -> Scalar {
        if self.is_nan_spec() {
            Scalar { bits: NAN_BITS }
        } else if self.is_infinite_spec() {
            self
        } else {
            Scalar::whole(-((-self.num()) / (unit() as int)), self.negative())
        }
    }

    /// Nearest whole number; halves go away from zero.
    #[verifier::opaque]
    pub open spec fn round_spec(self) -> Scalar {
        if self.is_nan_spec() {
            Scalar { bits: NAN_BITS }
        } else if self.is_infinite_spec() {
            self
        } else {
            let q = (2 * magnitude(self.pattern()) + unit()) / (2 * unit());
            Scalar::whole(
                if self.negative() {
                    -(q as int)
                } else {
                    q as int
                },
                self.negative(),
            )
        }
    }

    /// The value without its fraction, forced into `low..=high`; 0 for
    /// not-a-number.
    #[verifier::opaque]
    pub open spec fn to_int_spec(self, low: int, high: int) -> int {
        if self.is_nan_spec() {
            0
        } else if self.is_infinite_spec() {
            if self.negative() {
                low
            } else {
                high
            }
        } else {
            let t = (magnitude(self.pattern()) / unit()) as int;
            clamp_int(
                if self.negative() {
                    -t
                } else {
                    t
                },
                low,
                high,
            )
        }
    }
}

/// What a fraction below one does to rounding.
struct Parts {
    /// Whole units.
    whole: u64,
    /// Something is left over.
    rest: bool,
    /// At least half a unit is left over.
    half: bool,
}

pub(crate) proof fn lemma_unit()
    ensures
        unit() > 0,
        unit() % 2 == 0,
{
    lemma_pow2_pos(149);
    lemma_pow2_adds(1, 148);
    lemma2_to64();
}

/// Dividing by a power of two that a factor absorbs in part.
pub(crate) proof fn lemma_split(sig: nat, e: nat, m: nat)
    requires
        e < 149,
        m == sig * pow2(e),
    ensures
        ({
            let d = pow2((149 - e) as nat);
            &&& d > 0
            &&& m / unit() == sig / d
            &&& m % unit() == (sig % d) * pow2(e)
            &&& (m % unit() != 0) == (sig % d != 0)
            &&& (2 * (m % unit()) >= unit()) == (2 * (sig % d) >= d)
        }),
{
    let d = pow2((149 - e) as nat);
    let w = pow2(e);
    lemma_pow2_pos(e);
    lemma_pow2_pos((149 - e) as nat);
    lemma_pow2_adds((149 - e) as nat, e);
    let q = sig / d;
    let r = sig % d;
    lemma_fundamental_div_mod(sig as int, d as int);
    assert(sig == q * d + r) by (nonlinear_arith)
        requires
            sig == d * q + r,
    ;
    assert(m == q * (d * w) + r * w && 0 <= r * w < d * w) by (nonlinear_arith)
        requires
            m == sig * w,
            sig == q * d + r,
            0 <= r < d,
            w > 0,
    ;
    lemma_fundamental_div_mod_converse(m as int, unit() as int, q as int, (r * w) as int);
    assert((r * w != 0) == (r != 0) && (2 * (r * w) >= d * w) == (2 * r >= d)) by (nonlinear_arith)
        requires
            w > 0,
            r >= 0,
            d > 0,
    ;
}

/// A small magnitude split at the unit.
fn split(p: u32) -> (r: Parts)
    requires
        p < WHOLE_PATTERN,
    ensures
        r.whole == magnitude(p as nat) / unit(),
        r.rest == (magnitude(p as nat) % unit() != 0),
        r.half == (2 * (magnitude(p as nat) % unit()) >= unit()),
        r.whole < 0x80_0000,
{
    let (sig, e) = decode(p);
    proof {
        assert(e < 149) by (nonlinear_arith)
            requires
                p == e * BINADE + sig,
                p < WHOLE_PATTERN,
                e > 0 ==> sig >= BINADE,
                BINADE == 0x80_0000,
                WHOLE_PATTERN == 0x4b00_0000,
        ;
        lemma_split(sig as nat, e as nat, magnitude(p as nat));
        lemma2_to64();
    }
    let k: u32 = 149 - e;
    if k >= 26 {
        proof {
            if k > 26 {
                lemma_pow2_strictly_increases(26, k as nat);
            }
            let d = pow2(k as nat);
            vstd::arithmetic::div_mod::lemma_basic_div(sig as int, d as int);
            vstd::arithmetic::div_mod::lemma_small_mod(sig as nat, d);
        }
        Parts { whole: 0, rest: sig != 0, half: false }
    } else {
        let d: u64 = two_to(k);
        let s: u64 = sig as u64;
        proof {
            if k > 1 {
                lemma_pow2_strictly_increases(1, k as nat);
            }
            assert(s / d < 0x80_0000) by (nonlinear_arith)
                requires
                    s < 0x100_0000,
                    d >= 2,
            ;
        }
        let rem: u64 = s % d;
        Parts { whole: s / d, rest: rem != 0, half: 2 * rem >= d }
    }
}

/// A large magnitude is a whole number of units.
pub(crate) proof fn lemma_large(sig: nat, e: nat, m: nat)
    requires
        e >= 149,
        m == sig * pow2(e),
    ensures
        m == sig * pow2((e - 149) as nat) * unit(),
        m / unit() == sig * pow2((e - 149) as nat),
        m % unit() == 0,
{
    let f = pow2((e - 149) as nat);
    lemma_pow2_adds((e - 149) as nat, 149);
    let u = unit();
    lemma_unit();
    assert(sig * (f * u) == sig * f * u) by (nonlinear_arith);
    lemma_fundamental_div_mod_converse(m as int, u as int, (sig * f) as int, 0);
}

/// A representable magnitude rounds to itself.
pub proof fn lemma_representable(p: nat)
    requires
        p < INF_PATTERN,
    ensures
        super::round::nearest(magnitude(p), 1) == p,
{
    lemma_magnitude_increases(p, p + 1);
    if p > 0 {
        lemma_magnitude_increases((p - 1) as nat, p);
    }
    let m = magnitude(p);
    assert(m * 1 == m);
    assert((magnitude(p) + magnitude(p + 1)) * 1 == magnitude(p) + magnitude(p + 1));
    lemma_nearest(magnitude(p), 1, p);
}

/// A large finite scalar is the whole number that it denotes.
pub(crate) proof fn lemma_large_whole(s: Scalar)
    requires
        WHOLE_PATTERN <= s.pattern() < INF_PATTERN,
    ensures
        s.num() % (unit() as int) == 0,
        magnitude(s.pattern()) % unit() == 0,
        magnitude(s.pattern()) / unit() > 0,
        s == Scalar::from_int_spec(s.num() / (unit() as int)),
        s.num() / (unit() as int) == if s.negative() {
            -((magnitude(s.pattern()) / unit()) as int)
        } else {
            (magnitude(s.pattern()) / unit()) as int
        },
{
    reveal(Scalar::from_int_spec);
    let p = s.pattern();
    let e = (p / (BINADE as nat) - 1) as nat;
    let sig = (p - e * BINADE) as nat;
    super::round::lemma_magnitude_split(e, sig);
    let m = magnitude(p);
    lemma_large(sig, e, m);
    lemma_unit();
    let t = sig * pow2((e - 149) as nat);
    lemma_pow2_pos((e - 149) as nat);
    assert(t > 0) by (nonlinear_arith)
        requires
            t == sig * pow2((e - 149) as nat),
            sig > 0,
            pow2((e - 149) as nat) > 0,
    ;
    lemma_representable(p);
    let u = unit() as int;
    if s.negative() {
        assert(s.num() == -(t as int) * u) by (nonlinear_arith)
            requires
                s.num() == -(m as int),
                m == t * u,
        ;
        lemma_fundamental_div_mod_converse(s.num(), u, -(t as int), 0);
    } else {
        lemma_fundamental_div_mod_converse(s.num(), u, t as int, 0);
    }
}

impl Scalar {
    pub fn from_int(x: i64) -> (r: Scalar)
        requires
            x > i64::MIN,
        ensures
            r == Scalar::from_int_spec(x as int),
    {
        let negative: bool = x < 0;
        let m: u64 = if negative {
            (-x) as u64
        } else {
            x as u64
        };
        let p: u32 = pack(m, 149);
        proof {
            reveal(Scalar::from_int_spec);
            lemma_nearest(m as nat * unit(), 1, p as nat);
        }
        make(negative, p)
    }

    pub fn floor(self) -> (r: Scalar)
        ensures
            r == self.floor_spec(),
    {
        proof {
            reveal(Scalar::floor_spec);
        }
        if self.is_nan() {
            return Scalar { bits: NAN_BITS };
        }
        let p: u32 = self.magnitude_bits();
        if p >= INF_PATTERN {
            return self;
        }
        if p >= WHOLE_PATTERN {
            proof {
                lemma_large_whole(self);
            }
            return self;
        }
        let parts = split(p);
        let t: i64 = parts.whole as i64;
        let q: i64 = if self.is_negative() {
            if parts.rest {
                -t - 1
            } else {
                -t
            }
        } else {
            t
        };
        proof {
            lemma_floor(self, q as int);
        }
        if q == 0 {
            make(self.is_negative(), 0)
        } else {
            Scalar::from_int(q)
        }
    }

    pub fn ceil(self) -> (r: Scalar)
        ensures
            r == self.ceil_spec(),
    {
        proof {
            reveal(Scalar::ceil_spec);
        }
        if self.is_nan() {
            return Scalar { bits: NAN_BITS };
        }
        let p: u32 = self.magnitude_bits();
        if p >= INF_PATTERN {
            return self;
        }
        if p >= WHOLE_PATTERN {
            proof {
                lemma_large_whole(self);
                lemma_unit();
                let u = unit() as int;
                let q = self.num() / u;
                lemma_fundamental_div_mod(self.num(), u);
                assert(-self.num() == (-q) * u) by (nonlinear_arith)
                    requires
                        self.num() == u * q,
                ;
                lemma_fundamental_div_mod_converse(-self.num(), u, -q, 0);
            }
            return self;
        }
        let parts = split(p);
        let t: i64 = parts.whole as i64;
        let q: i64 = if self.is_negative() {
            -t
        } else if parts.rest {
            t + 1
        } else {
            t
        };
        proof {
            lemma_unit();
            let u = unit() as int;
            let m = magnitude(p as nat) as int;
            let rem = m % u;
            lemma_fundamental_div_mod(m, u);
            if self.negative() {
                assert(-self.num() == m);
            } else if rem != 0 {
                assert(-m == (-t - 1) * u + (u - rem)) by (nonlinear_arith)
                    requires
                        m == u * t + rem,
                ;
                lemma_fundamental_div_mod_converse(-m, u, -t - 1, u - rem);
            } else {
                assert(-m == (-t) * u) by (nonlinear_arith)
                    requires
                        m == u * t + rem,
                        rem == 0,
                ;
                lemma_fundamental_div_mod_converse(-m, u, -t as int, 0);
            }
        }
        if q == 0 {
            make(self.is_negative(), 0)
        } else {
            Scalar::from_int(q)
        }
    }

    pub fn round(self) -> (r: Scalar)
        ensures
            r == self.round_spec(),
    {
        proof {
            reveal(Scalar::round_spec);
        }
        if self.is_nan() {
            return Scalar { bits: NAN_BITS };
        }
        let p: u32 = self.magnitude_bits();
        if p >= INF_PATTERN {
            return self;
        }
        proof {
            lemma_unit();
            lemma_half_up(magnitude(p as nat) as int, unit() as int);
        }
        if p >= WHOLE_PATTERN {
            proof {
                lemma_large_whole(self);
            }
            return self;
        }
        let parts = split(p);
        let t: i64 = parts.whole as i64;
        let a: i64 = if parts.half {
            t + 1
        } else {
            t
        };
        let q: i64 = if self.is_negative() {
            -a
        } else {
            a
        };
        if q == 0 {
            make(self.is_negative(), 0)
        } else {
            Scalar::from_int(q)
        }
    }

    pub fn to_i64(self) -> (r: i64)
        ensures
            r == self.to_int_spec(i64::MIN as int, i64::MAX as int),
    {
        proof {
            reveal(Scalar::to_int_spec);
        }
        if self.is_nan() {
            return 0;
        }
        let p: u32 = self.magnitude_bits();
        if p >= INF_PATTERN {
            if self.is_negative() {
                return i64::MIN;
            }
            return i64::MAX;
        }
        let t: u64 = whole_part(p);
        if self.is_negative() {
            if t >= 0x8000_0000_0000_0000 {
                i64::MIN
            } else {
                -(t as i64)
            }
        } else if t >= 0x8000_0000_0000_0000 {
            i64::MAX
        } else {
            t as i64
        }
    }

    pub fn to_i32(self) -> (r: i32)
        ensures
            r == self.to_int_spec(i32::MIN as int, i32::MAX as int),
    {
        proof {
            reveal(Scalar::to_int_spec);
        }
        let t: i64 = self.to_i64();
        if t < i32::MIN as i64 {
            i32::MIN
        } else if t > i32::MAX as i64 {
            i32::MAX
        } else {
            t as i32
        }
    }

    pub fn to_u32(self) -> (r: u32)
        ensures
            r == self.to_int_spec(0, u32::MAX as int),
    {
        proof {
            reveal(Scalar::to_int_spec);
        }
        let t: i64 = self.to_i64();
        if t < 0 {
            0
        } else if t > u32::MAX as i64 {
            u32::MAX
        } else {
            t as u32
        }
    }
}

proof fn lemma_floor(s: Scalar, q: int)
    requires
        s.pattern() < WHOLE_PATTERN,
        ({
            let t = (magnitude(s.pattern()) / unit()) as int;
            q == if s.negative() {
                if magnitude(s.pattern()) % unit() != 0 {
                    -t - 1
                } else {
                    -t
                }
            } else {
                t
            }
        }),
    ensures
        q == s.num() / (unit() as int),
{
    lemma_unit();
    let u = unit() as int;
    let m = magnitude(s.pattern()) as int;
    let t = m / u;
    let rem = m % u;
    lemma_fundamental_div_mod(m, u);
    if s.negative() {
        if rem != 0 {
            assert(-m == (-t - 1) * u + (u - rem)) by (nonlinear_arith)
                requires
                    m == u * t + rem,
            ;
            lemma_fundamental_div_mod_converse(-m, u, -t - 1, u - rem);
        } else {
            assert(-m == (-t) * u) by (nonlinear_arith)
                requires
                    m == u * t + rem,
                    rem == 0,
            ;
            lemma_fundamental_div_mod_converse(-m, u, -t, 0);
        }
    }
}

proof fn lemma_half_up(m: int, u: int)
    requires
        m >= 0,
        u > 0,
        u % 2 == 0,
    ensures
        (2 * m + u) / (2 * u) == m / u + if 2 * (m % u) >= u {
            1int
        } else {
            0
        },
{
    let t = m / u;
    let r = m % u;
    lemma_fundamental_div_mod(m, u);
    if 2 * r >= u {
        assert(2 * m + u == (t + 1) * (2 * u) + (2 * r - u)) by (nonlinear_arith)
            requires
                m == u * t + r,
        ;
        lemma_fundamental_div_mod_converse(2 * m + u, 2 * u, t + 1, 2 * r - u);
    } else {
        assert(2 * m + u == t * (2 * u) + (2 * r + u)) by (nonlinear_arith)
            requires
                m == u * t + r,
        ;
        lemma_fundamental_div_mod_converse(2 * m + u, 2 * u, t, 2 * r + u);
    }
}

/// Whole units in a finite magnitude, saturated at two to the 63.
fn whole_part(p: u32) -> (t: u64)
    requires
        p < INF_PATTERN,
    ensures
        t == magnitude(p as nat) / unit() || (t == 0x8000_0000_0000_0000 && magnitude(p as nat)
            / unit() >= 0x8000_0000_0000_0000),
        t <= 0x8000_0000_0000_0000,
{
    if p < WHOLE_PATTERN {
        return split(p).whole;
    }
    let (sig, e) = decode(p);
    proof {
        assert(e >= 149 && sig >= BINADE) by (nonlinear_arith)
            requires
                p == e * BINADE + sig,
                p >= WHOLE_PATTERN,
                sig < 2 * BINADE,
                e > 0 ==> sig >= BINADE,
                BINADE == 0x80_0000,
                WHOLE_PATTERN == 0x4b00_0000,
        ;
        lemma_large(sig as nat, e as nat, magnitude(p as nat));
        lemma2_to64();
        lemma2_to64_rest();
    }
    let k: u32 = e - 149;
    if k > 39 {
        proof {
            lemma_pow2_adds(39, 1);
            if k > 40 {
                lemma_pow2_strictly_increases(40, k as nat);
            }
            let f = pow2(k as nat);
            assert(sig * f >= 0x80_0000 * 0x100_0000_0000) by (nonlinear_arith)
                requires
                    sig >= 0x80_0000,
                    f >= 0x100_0000_0000,
            ;
        }
        return 0x8000_0000_0000_0000;
    }
    let f: u64 = two_to(k);
    proof {
        if k < 39 {
            lemma_pow2_strictly_increases(k as nat, 39);
        }
        assert(sig * f <= 0xff_ffff * 0x80_0000_0000) by (nonlinear_arith)
            requires
                sig <= 0xff_ffff,
                f <= 0x80_0000_0000,
        ;
    }
    sig as u64 * f
}

} // verus!
