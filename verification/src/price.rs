//! Canonical price keys.
//!
//! A price arrives as a decimal number `mantissa * 10^(-scale)`. It is
//! bucketed once, at construction, to a fixed precision of [`SCALE`]
//! fractional units per whole unit, so that repeated submissions of the same
//! human price always land on the same key and no further decimal or
//! floating-point comparison is ever needed.

use vstd::arithmetic::div_mod::{
    lemma_div_denominator, lemma_fundamental_div_mod, lemma_fundamental_div_mod_converse,
    lemma_div_multiples_vanish,
};
use vstd::prelude::*;

verus! {

/// Number of fractional price units per whole unit: prices keep five
/// decimal digits.
pub const SCALE: u64 = 100000;

/// A canonical, hashable, totally ordered monetary price: a whole part and
/// a fractional part counted in units of `1 / SCALE`. Two prices built from
/// equal decimal values are equal and hash identically; ordering and
/// equality are lexicographic on `(integral, fractional)`.
#[derive(Clone, Copy, Debug, Hash, PartialEq, Eq, Structural)]
pub struct Price {
    pub integral: u64,
    pub fractional: u64,
}

/// Why a decimal input could not be turned into a price key.
#[derive(Clone, Copy, Debug, PartialEq, Eq, Structural)]
pub enum PriceError {
    /// The input was below zero, which no bucket represents.
    Negative,
    /// The whole part of the bucketed value does not fit in a machine word.
    Overflow,
}

/// `10^e`.
pub open spec fn pow10(e: nat) -> int
    decreases e,
{
    if e == 0 {
        1
    } else {
        10 * pow10((e - 1) as nat)
    }
}

/// The bucket that the decimal number `m * 10^(-s)` falls into, counted in
/// fractional units of `1 / SCALE`: decimal digits below the fifth are
/// dropped.
pub open spec fn bucket_units(m: int, s: nat) -> int {
    if s <= 5 {
        m * pow10((5 - s) as nat)
    } else {
        m / pow10((s - 5) as nat)
    }
}

/// The largest bucket count a `Price` can hold.
pub open spec fn max_units() -> int {
    u64::MAX as int * SCALE as int + (SCALE as int - 1)
}

proof fn lemma_pow10_pos(e: nat)
    ensures
        pow10(e) >= 1,
    decreases e,
{
    if e > 0 {
        lemma_pow10_pos((e - 1) as nat);
    }
}

/// The concrete powers of ten under the scale.
proof fn lemma_pow10_values()
    ensures
        pow10(0) == 1,
        pow10(1) == 10,
        pow10(2) == 100,
        pow10(3) == 1000,
        pow10(4) == 10000,
        pow10(5) == 100000,
{
    reveal_with_fuel(pow10, 7);
}

impl Price {
    /// A well-formed price keeps its fractional part below the scale.
    pub open spec fn wf(self) -> bool {
        self.fractional < SCALE
    }

    /// The price as a single count of fractional units.
    pub open spec fn units(self) -> int {
        self.integral as int * SCALE as int + self.fractional as int
    }

    /// Lexicographic (and, for well-formed prices, numeric) strict order.
    pub open spec fn lt(self, other: Price) -> bool {
        self.integral < other.integral
            || (self.integral == other.integral && self.fractional < other.fractional)
    }

    /// Strict comparison of two price keys.
    pub fn less_than(&self, other: &Price) -> (r: bool)
        ensures
            r == self.lt(*other),
    {
        self.integral < other.integral
            || (self.integral == other.integral && self.fractional < other.fractional)
    }

    /// Buckets the decimal number `mantissa * 10^(-scale)` into a price key.
    /// Digits below the fifth decimal place are dropped, so inputs that
    /// differ only by representation noise below the scale collapse to the
    /// same key. Negative inputs have no bucket and are rejected, as is a
    /// value whose whole part overflows a machine word.
    pub fn construct(mantissa: i128, scale: u32) -> (r: Result<Price, PriceError>)
        ensures
            (mantissa < 0) <==> r == Err::<Price, PriceError>(PriceError::Negative),
            mantissa >= 0 && bucket_units(mantissa as int, scale as nat) > max_units() ==> r
                == Err::<Price, PriceError>(PriceError::Overflow),
            mantissa >= 0 && bucket_units(mantissa as int, scale as nat) <= max_units() ==> (
            r matches Ok(p) && p.units() == bucket_units(mantissa as int, scale as nat) && p.wf()),
    {
        if mantissa < 0 {
            return Err(PriceError::Negative);
        }
        let mut m: u128 = mantissa as u128;
        let mut s: u32 = scale;
        while s > 5
            invariant
                mantissa >= 0,
                bucket_units(m as int, s as nat) == bucket_units(
                    mantissa as int,
                    scale as nat,
                ),
            decreases s,
        {
            proof {
                lemma_drop_digit(m as int, s as nat);
            }
            m = m / 10;
            s = s - 1;
        }
        let p10: u128 = pow10_small(s);
        let mult: u128 = pow10_small(5 - s);
        let q: u128 = m / p10;
        let rem: u128 = m % p10;
        proof {
            lemma_pow10_small_product(s as nat);
        }
        assert(rem * mult < 100000) by (nonlinear_arith)
            requires
                0 <= rem,
                rem < p10,
                0 < mult,
                p10 * mult == 100000,
        ;
        let frac: u128 = rem * mult;
        assert(q as int * 100000 + frac as int == bucket_units(m as int, s as nat)) by {
            assert(bucket_units(m as int, s as nat) == m as int * mult as int);
            lemma_fundamental_div_mod(m as int, p10 as int);
            assert((q as int * p10 as int + rem as int) * mult as int == q as int * (p10 as int
                * mult as int) + rem as int * mult as int) by (nonlinear_arith);
        }
        if q > u64::MAX as u128 {
            assert(bucket_units(m as int, s as nat) > max_units()) by (nonlinear_arith)
                requires
                    q as int * 100000 + frac as int == bucket_units(m as int, s as nat),
                    q > u64::MAX as int,
                    frac >= 0,
                    max_units() == u64::MAX as int * 100000 + 99999,
            ;
            return Err(PriceError::Overflow);
        }
        assert(bucket_units(m as int, s as nat) <= max_units()) by (nonlinear_arith)
            requires
                q as int * 100000 + frac as int == bucket_units(m as int, s as nat),
                q <= u64::MAX as int,
                frac < 100000,
                max_units() == u64::MAX as int * 100000 + 99999,
        ;
        Ok(Price { integral: q as u64, fractional: frac as u64 })
    }
}

/// `10^e` for the small exponents that fit under the scale.
fn pow10_small(e: u32) -> (r: u128)
    requires
        e <= 5,
    ensures
        r == pow10(e as nat),
        1 <= r <= 100000,
{
    proof {
        reveal_with_fuel(pow10, 7);
    }
    if e == 0 {
        1
    } else if e == 1 {
        10
    } else if e == 2 {
        100
    } else if e == 3 {
        1000
    } else if e == 4 {
        10000
    } else {
        100000
    }
}

/// Dropping the last digit of the mantissa while lowering the scale keeps
/// the value in the same bucket, as long as the scale stays above the kept
/// precision.
proof fn lemma_drop_digit(m: int, s: nat)
    requires
        m >= 0,
        s > 5,
    ensures
        bucket_units(m / 10, (s - 1) as nat) == bucket_units(m, s),
{
    reveal_with_fuel(pow10, 2);
    if s == 6 {
        assert(bucket_units(m / 10, 5) == m / 10);
        assert(bucket_units(m, 6) == m / pow10(1));
    } else {
        lemma_pow10_pos((s - 6) as nat);
        lemma_div_denominator(m, 10, pow10((s - 6) as nat));
        assert(pow10((s - 5) as nat) == 10 * pow10((s - 6) as nat));
    }
}

/// `10^s * 10^(5-s) == 10^5` for the exponents under the scale.
proof fn lemma_pow10_small_product(s: nat)
    requires
        s <= 5,
    ensures
        pow10(s) * pow10((5 - s) as nat) == 100000,
        pow10(s) >= 1,
        pow10((5 - s) as nat) >= 1,
{
    lemma_pow10_values();
    lemma_pow10_pos(s);
    lemma_pow10_pos((5 - s) as nat);
    if s == 0 {
        assert(pow10(s) == 1 && pow10((5 - s) as nat) == pow10(5));
    } else if s == 1 {
        assert(pow10(s) == pow10(1) && pow10((5 - s) as nat) == pow10(4));
    } else if s == 2 {
        assert(pow10(s) == pow10(2) && pow10((5 - s) as nat) == pow10(3));
    } else if s == 3 {
        assert(pow10(s) == pow10(3) && pow10((5 - s) as nat) == pow10(2));
    } else if s == 4 {
        assert(pow10(s) == pow10(4) && pow10((5 - s) as nat) == pow10(1));
    } else {
        assert(pow10(s) == pow10(5) && pow10((5 - s) as nat) == pow10(0));
    }
}

/// Appending a trailing zero to a decimal representation leaves the bucket
/// unchanged: representations of one value all collapse to one price key.
pub proof fn lemma_trailing_zero_same_bucket(m: int, s: nat)
    requires
        m >= 0,
    ensures
        bucket_units(m * 10, s + 1) == bucket_units(m, s),
{
    reveal_with_fuel(pow10, 2);
    lemma_pow10_values();
    if s + 1 <= 5 {
        assert(pow10((5 - s) as nat) == 10 * pow10((4 - s) as nat));
        assert(bucket_units(m * 10, s + 1) == (m * 10) * pow10((4 - s) as nat));
        assert(m * 10 * pow10((4 - s) as nat) == m * (10 * pow10((4 - s) as nat)))
            by (nonlinear_arith);
        assert(bucket_units(m * 10, s + 1) == bucket_units(m, s));
    } else if s == 5 {
        lemma_div_multiples_vanish(m, 10);
        assert(bucket_units(m * 10, 6) == (m * 10) / pow10(1));
        assert((m * 10) / 10 == (10 * m) / 10);
        assert(bucket_units(m * 10, s + 1) == bucket_units(m, s));
    } else {
        lemma_pow10_pos((s - 5) as nat);
        lemma_div_denominator(m * 10, 10, pow10((s - 5) as nat));
        assert(pow10((s - 4) as nat) == 10 * pow10((s - 5) as nat));
        assert(bucket_units(m * 10, s + 1) == (m * 10) / (10 * pow10((s - 5) as nat)));
        lemma_div_multiples_vanish(m, 10);
        assert((m * 10) / 10 == (10 * m) / 10);
        assert(bucket_units(m * 10, s + 1) == bucket_units(m, s));
    }
}

/// On well-formed prices the lexicographic order is the numeric one:
/// prices sort by ascending count of fractional units.
pub proof fn lemma_lt_is_numeric(a: Price, b: Price)
    requires
        a.wf(),
        b.wf(),
    ensures
        a.lt(b) <==> a.units() < b.units(),
{
    if a.integral < b.integral {
        assert((a.integral as int) * 100000 + (a.fractional as int) < (b.integral as int) * 100000
            + (b.fractional as int)) by (nonlinear_arith)
            requires
                a.integral < b.integral,
                a.fractional < 100000,
                b.fractional >= 0,
        ;
    }
    if b.integral < a.integral {
        assert((b.integral as int) * 100000 + (b.fractional as int) < (a.integral as int) * 100000
            + (a.fractional as int)) by (nonlinear_arith)
            requires
                b.integral < a.integral,
                b.fractional < 100000,
                a.fractional >= 0,
        ;
    }
}

/// Two well-formed prices holding the same count of fractional units are
/// the same key: the (integral, fractional) split is unique.
pub proof fn lemma_units_injective(a: Price, b: Price)
    requires
        a.wf(),
        b.wf(),
        a.units() == b.units(),
    ensures
        a == b,
{
    lemma_fundamental_div_mod_converse(
        a.units(),
        SCALE as int,
        a.integral as int,
        a.fractional as int,
    );
    lemma_fundamental_div_mod_converse(
        b.units(),
        SCALE as int,
        b.integral as int,
        b.fractional as int,
    );
}

} // verus!
