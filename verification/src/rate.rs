//! Exact rational exchange rates.
//!
//! A rate is a fraction of two arbitrary-precision naturals, so compounding
//! rates across the hops of a route never loses precision. The mathematical
//! model of a rate is a [`RatV`] pair of naturals; ordering and equality of
//! rates are the usual cross-multiplied comparisons of fractions.

use vstd::prelude::*;

use crate::bignum::{big_clone, big_eq, big_from_u128, big_lt, big_mul, big_val};

verus! {

/// Mathematical value of a rate: the fraction `num / den`.
pub struct RatV {
    pub num: nat,
    pub den: nat,
}

/// A well-formed rational has a positive denominator.
pub open spec fn rat_wf(a: RatV) -> bool {
    a.den > 0
}

/// `a <= b` as fractions.
pub open spec fn rat_le(a: RatV, b: RatV) -> bool {
    a.num * b.den <= b.num * a.den
}

/// `a < b` as fractions.
pub open spec fn rat_lt(a: RatV, b: RatV) -> bool {
    a.num * b.den < b.num * a.den
}

/// `a == b` as fractions.
pub open spec fn rat_eq(a: RatV, b: RatV) -> bool {
    a.num * b.den == b.num * a.den
}

/// Product of two fractions.
pub open spec fn rat_mul(a: RatV, b: RatV) -> RatV {
    RatV { num: a.num * b.num, den: a.den * b.den }
}

/// The fraction `1 / 1`, the neutral element of [`rat_mul`].
pub open spec fn rat_one() -> RatV {
    RatV { num: 1, den: 1 }
}

/// `<=` on fractions is transitive.
pub proof fn lemma_rat_le_trans(a: RatV, b: RatV, c: RatV)
    requires
        rat_wf(a),
        rat_wf(b),
        rat_wf(c),
        rat_le(a, b),
        rat_le(b, c),
    ensures
        rat_le(a, c),
{
    assert(a.num * b.den * c.den <= b.num * a.den * c.den) by (nonlinear_arith)
        requires
            a.num * b.den <= b.num * a.den,
            c.den > 0,
    ;
    assert(b.num * c.den * a.den <= c.num * b.den * a.den) by (nonlinear_arith)
        requires
            b.num * c.den <= c.num * b.den,
            a.den > 0,
    ;
    assert(a.num * c.den * b.den <= c.num * a.den * b.den) by (nonlinear_arith)
        requires
            a.num * b.den * c.den <= b.num * a.den * c.den,
            b.num * c.den * a.den <= c.num * b.den * a.den,
    ;
    assert(a.num * c.den <= c.num * a.den) by (nonlinear_arith)
        requires
            a.num * c.den * b.den <= c.num * a.den * b.den,
            b.den > 0,
    ;
}

/// An exact exchange rate: the fraction `num / den` of two
/// arbitrary-precision naturals.
pub struct Rate {
    pub num: num_bigint::BigUint,
    pub den: num_bigint::BigUint,
}

impl View for Rate {
    type V = RatV;

    open spec fn view(&self) -> RatV {
        RatV { num: big_val(self.num), den: big_val(self.den) }
    }
}

impl Rate {
    /// A well-formed rate denotes a fraction with a positive denominator.
    pub open spec fn wf(&self) -> bool {
        rat_wf(self@)
    }

    /// Build the exact rate `num / den` from machine integers.
    pub fn from_fraction(num: u128, den: u128) -> (r: Rate)
        requires
            den > 0,
        ensures
            r@ == (RatV { num: num as nat, den: den as nat }),
            r.wf(),
    {
        Rate { num: big_from_u128(num), den: big_from_u128(den) }
    }

    /// An exact copy of the rate.
    pub fn duplicate(&self) -> (r: Rate)
        ensures
            r@ == self@,
    {
        Rate { num: big_clone(&self.num), den: big_clone(&self.den) }
    }

    /// Exact product of two rates.
    pub fn times(&self, other: &Rate) -> (r: Rate)
        ensures
            r@ == rat_mul(self@, other@),
    {
        Rate { num: big_mul(&self.num, &other.num), den: big_mul(&self.den, &other.den) }
    }

    /// `self < other` as fractions, decided exactly by cross-multiplication.
    pub fn lt(&self, other: &Rate) -> (r: bool)
        ensures
            r == rat_lt(self@, other@),
    {
        let lhs = big_mul(&self.num, &other.den);
        let rhs = big_mul(&other.num, &self.den);
        big_lt(&lhs, &rhs)
    }

    /// `self <= other` as fractions, decided exactly by cross-multiplication.
    pub fn le(&self, other: &Rate) -> (r: bool)
        ensures
            r == rat_le(self@, other@),
    {
        let lhs = big_mul(&self.num, &other.den);
        let rhs = big_mul(&other.num, &self.den);
        !big_lt(&rhs, &lhs)
    }

    /// `self == other` as fractions, decided exactly by cross-multiplication.
    pub fn eq_rate(&self, other: &Rate) -> (r: bool)
        ensures
            r == rat_eq(self@, other@),
    {
        let lhs = big_mul(&self.num, &other.den);
        let rhs = big_mul(&other.num, &self.den);
        big_eq(&lhs, &rhs)
    }
}

/// A positive decimal number `mantissa * 10^(-scale)`, the plain-value form
/// in which pool prices reach the library.
#[derive(Clone, Copy, PartialEq, Eq, Structural, Debug)]
pub struct Decimal {
    pub mantissa: u128,
    pub scale: u32,
}

impl Decimal {
    /// Prices are strictly positive.
    pub open spec fn wf(&self) -> bool {
        self.mantissa > 0
    }
}

/// `10^n`.
pub open spec fn pow10(n: nat) -> nat
    decreases n,
{
    if n == 0 {
        1
    } else {
        10 * pow10((n - 1) as nat)
    }
}


/// `10^n` as an arbitrary-precision natural.
pub fn pow10_big(n: u32) -> (r: num_bigint::BigUint)
    ensures
        big_val(r) == pow10(n as nat),
{
    let ten = big_from_u128(10);
    let mut acc = big_from_u128(1);
    let mut i: u32 = 0;
    while i < n
        invariant
            i <= n,
            big_val(acc) == pow10(i as nat),
            big_val(ten) == 10,
        decreases n - i,
    {
        let ghost prev = big_val(acc);
        acc = big_mul(&acc, &ten);
        proof {
            assert(big_val(acc) == prev * 10);
            assert(pow10((i + 1) as nat) == 10 * pow10(i as nat));
        }
        i = i + 1;
    }
    acc
}

/// Fees are given in parts per million of the traded amount.
pub const FEE_DENOMINATOR: u32 = 1_000_000;

/// The mathematical value of the effective rate `(1 - fee) / price` for a
/// fee of `fee_ppm` parts per million and a positive decimal price:
/// `(10^6 - fee_ppm) * 10^scale / (10^6 * mantissa)`.
pub open spec fn effective_rate(fee_ppm: u32, price: Decimal) -> RatV {
    RatV {
        num: ((FEE_DENOMINATOR - fee_ppm) * pow10(price.scale as nat)) as nat,
        den: ((FEE_DENOMINATOR as nat) * price.mantissa) as nat,
    }
}

/// Compute the exact effective rate `(1 - fee) / price`, net of the fee.
pub fn rate_from_price(fee_ppm: u32, price: &Decimal) -> (r: Rate)
    requires
        fee_ppm < FEE_DENOMINATOR,
        price.wf(),
    ensures
        r@ == effective_rate(fee_ppm, *price),
        r.wf(),
{
    let net = big_from_u128((FEE_DENOMINATOR - fee_ppm) as u128);
    let num = big_mul(&net, &pow10_big(price.scale));
    let den = big_mul(&big_from_u128(FEE_DENOMINATOR as u128), &big_from_u128(price.mantissa));
    let r = Rate { num, den };
    proof {
        assert(r@.den > 0) by (nonlinear_arith)
            requires
                r@.den == (FEE_DENOMINATOR as nat) * price.mantissa,
                price.mantissa > 0,
        ;
    }
    r
}

} // verus!
