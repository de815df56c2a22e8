//! Integer-cents money.

use crate::scalar::consts::{HUNDRED, ZERO};
use crate::scalar::convert::lemma_unit;
use crate::scalar::exact::{lemma_floor_is_exact, lemma_floor_splits, lemma_whole_to_int};
use crate::scalar::{scalar, unit, Scalar};
use crate::text::{digits, padded, push_number, push_padded};
use vstd::arithmetic::div_mod::lemma_fundamental_div_mod;
use vstd::prelude::*;

verus! {

/// Integer-cents money with a sub-cent accumulator. Per-tick earnings are
/// fractions of a cent (at 36 dollars an hour and ten ticks a second, a
/// tenth of a cent per tick), so the fraction carries until it makes a
/// whole cent: no drift, no lost pennies.
#[derive(Clone, Copy, Debug, PartialEq, Eq, Structural)]
pub struct Money {
    pub cents: i64,
    pub frac: Scalar,
}

/// `x` wrapped into the range of `i64`, for `x` within one range of it.
pub open spec fn wrap(x: int) -> int {
    if x > i64::MAX {
        x - 0x1_0000_0000_0000_0000
    } else if x < i64::MIN {
        x + 0x1_0000_0000_0000_0000
    } else {
        x
    }
}

impl Money {
    /// Sub-cent fraction plus an amount in dollars, in cents.
    pub open spec fn total(self, dollars: Scalar) -> Scalar {
        self.frac.add_spec(dollars.mul_spec(scalar(HUNDRED)))
    }

    /// Whole cents that an amount in dollars moves into the account.
    pub open spec fn credit(self, dollars: Scalar) -> int {
        self.total(dollars).floor_spec().to_int_spec(i64::MIN as int, i64::MAX as int)
    }

    pub open spec fn accrued(self, dollars: Scalar) -> Money {
        Money {
            cents: wrap(self.cents + self.credit(dollars)) as i64,
            frac: self.total(dollars).sub_spec(self.total(dollars).floor_spec()),
        }
    }

    /// Add an amount in dollars: whole cents move into `cents`, the rest
    /// stays in the accumulator.
    pub fn accrue(&mut self, dollars: Scalar)
        ensures
            *final(self) == old(self).accrued(dollars),
    {
        let total: Scalar = self.frac.add(dollars.mul(scalar(HUNDRED)));
        let whole: Scalar = total.floor();
        self.cents = self.cents.wrapping_add(whole.to_i64());
        self.frac = total.sub(whole);
    }
}

impl Default for Money {
    fn default() -> (r: Money)
        ensures
            r == (Money { cents: 0, frac: scalar(ZERO) }),
    {
        Money { cents: 0, frac: scalar(ZERO) }
    }
}

/// Household money, earned by working agents.
#[derive(Clone, Copy, Debug, PartialEq, Eq, Structural)]
pub struct Funds(pub Money);

/// City treasury, filled by the nightly tax tick (rate times capacity times
/// development per building per day).
#[derive(Clone, Copy, Debug, PartialEq, Eq, Structural)]
pub struct Treasury(pub Money);

/// An integer in decimal, with a minus sign where it is negative.
pub open spec fn decimal(x: int) -> Seq<char> {
    if x < 0 {
        seq!['-'] + digits((-x) as nat)
    } else {
        digits(x as nat)
    }
}

/// Text of an amount in cents: dollars rounded down, a point, two digits.
pub open spec fn cents_text(cents: int) -> Seq<char> {
    seq!['$'] + decimal(cents / 100) + seq!['.'] + padded((cents % 100) as nat, 2)
}

/// "$d.cc" for integer cents. The dollars are rounded down, so that the
/// cents are never negative.
pub fn fmt_cents(cents: i64) -> (r: String)
    ensures
        r@ == cents_text(cents as int),
{
    let mut out = String::new();
    let negative: bool = cents < 0;
    // |floor(cents / 100)| and the remainder, without leaving the type
    let (dollars, rest): (u64, u64) = if negative {
        let m: u64 = (-(cents + 1)) as u64;
        (m / 100 + 1, 99 - m % 100)
    } else {
        (cents as u64 / 100, cents as u64 % 100)
    };
    out.push('$');
    if negative {
        out.push('-');
    }
    push_number(&mut out, dollars);
    out.push('.');
    push_padded(&mut out, rest, 2);
    proof {
        if negative {
            let m: int = -(cents + 1);
            assert(cents / 100 == -(m / 100 + 1) && cents % 100 == 99 - m % 100);
        }
        assert(out@ =~= cents_text(cents as int));
    }
    out
}

/// No lost pennies: every whole cent, rounded down, moves into the account,
/// and the rest, from nothing to one cent, stays in the accumulator. The two
/// add up to what came in: without rounding where that is not below zero,
/// else up to the rounding of the rest, two to the minus 25 of a cent at most.
pub proof fn law_no_lost_pennies(m: Money, dollars: Scalar)
    requires
        m.total(dollars).is_finite_spec(),
        i64::MIN <= m.total(dollars).num() / (unit() as int) <= i64::MAX,
        i64::MIN <= m.cents + m.total(dollars).num() / (unit() as int) <= i64::MAX,
    ensures
        ({
            let r = m.accrued(dollars);
            let came = m.cents * unit() + m.total(dollars).num();
            let kept = r.cents * unit() + r.frac.num();
            &&& r.cents == m.cents + m.total(dollars).num() / (unit() as int)
            &&& r.frac.is_finite_spec()
            &&& 0 <= r.frac.num() <= unit()
            &&& -(unit() as int) <= (kept - came) * 0x200_0000 <= unit()
            &&& !m.total(dollars).negative() ==> kept == came && r.frac.num() < unit()
        }),
{
    let t = m.total(dollars);
    let u = unit() as int;
    lemma_unit();
    lemma_floor_splits(t);
    let q = t.num() / u;
    lemma_fundamental_div_mod(t.num(), u);
    lemma_whole_to_int(t.floor_spec(), q, i64::MIN as int, i64::MAX as int);
    assert(m.accrued(dollars).cents == m.cents + q);
    assert((m.cents + q) * u == m.cents * u + u * q) by (nonlinear_arith);
    if !t.negative() {
        lemma_floor_is_exact(t);
    }
}

} // verus!
