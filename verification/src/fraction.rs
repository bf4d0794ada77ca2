//! Exact fractions: the quality by which parties are ranked.

use vstd::prelude::*;
use crate::data::Count;

verus! {

/// The quotient of two natural numbers, as contracts speak of it.
pub struct Ratio {
    pub num: nat,
    pub den: nat,
}

impl Ratio {
    /// The denominator is not zero.
    pub open spec fn proper(self) -> bool {
        self.den > 0
    }

    /// `self >= other` as rational numbers.
    pub open spec fn at_least(self, other: Ratio) -> bool {
        self.num * other.den >= other.num * self.den
    }

    /// `self == other` as rational numbers.
    pub open spec fn same_value(self, other: Ratio) -> bool {
        self.num * other.den == other.num * self.den
    }
}

/// A fraction of two whole numbers. Two fractions are compared by cross
/// multiplication, so no rounding ever decides a seat.
#[derive(Clone, Copy, Debug)]
pub struct Fraction {
    pub num: u128,
    pub den: Count,
}

impl View for Fraction {
    type V = Ratio;

    open spec fn view(&self) -> Ratio {
        Ratio { num: self.num as nat, den: self.den as nat }
    }
}

/// The quotient that a quality stands for, if it is present.
pub open spec fn rating(quality: Option<Fraction>) -> Option<Ratio> {
    match quality {
        Some(f) => Some(f@),
        None => None,
    }
}

impl Fraction {
    /// The whole number `num`.
    pub fn whole(num: u128) -> (f: Fraction)
        ensures
            f@ == (Ratio { num: num as nat, den: 1 }),
    {
        Fraction { num, den: 1 }
    }

    /// Whether `self >= other`, exactly.
    pub fn is_at_least(&self, other: &Fraction) -> (b: bool)
        ensures
            b == self@.at_least(other@),
    {
        let (top, low) = wide_product(self.num, other.den);
        let (other_top, other_low) = wide_product(other.num, self.den);
        top > other_top || (top == other_top && low >= other_low)
    }

    /// Whether `self == other`, exactly.
    pub fn is_same_value(&self, other: &Fraction) -> (b: bool)
        ensures
            b == self@.same_value(other@),
    {
        let (top, low) = wide_product(self.num, other.den);
        let (other_top, other_low) = wide_product(other.num, self.den);
        top == other_top && low == other_low
    }
}

/// The fraction `num / den`.
pub fn frac(num: Count, den: Count) -> (f: Fraction)
    requires
        den > 0,
    ensures
        f@ == (Ratio { num: num as nat, den: den as nat }),
{
    Fraction { num: num as u128, den }
}

/// The product of two counts.
pub fn product(a: Count, b: Count) -> (p: u128)
    ensures
        p == a * b,
{
    assert(a * b <= 0xffff_ffff_ffff_ffff * 0xffff_ffff_ffff_ffff) by (nonlinear_arith)
        requires
            0 <= a <= 0xffff_ffff_ffff_ffff,
            0 <= b <= 0xffff_ffff_ffff_ffff,
    ;
    (a as u128) * (b as u128)
}

/// The product `a * d` in two limbs: `r.0 * 2^64 + r.1`.
fn wide_product(a: u128, d: Count) -> (r: (u128, u64))
    ensures
        r.0 as int * 0x1_0000_0000_0000_0000 + r.1 as int == a as int * d as int,
{
    let high: u128 = a / 0x1_0000_0000_0000_0000u128;
    let low: u128 = a % 0x1_0000_0000_0000_0000u128;
    let wide: u128 = d as u128;
    assert(high * wide <= 0xffff_ffff_ffff_ffff * 0xffff_ffff_ffff_ffff) by (nonlinear_arith)
        requires
            0 <= high <= 0xffff_ffff_ffff_ffff,
            0 <= wide <= 0xffff_ffff_ffff_ffff,
    ;
    assert(low * wide <= 0xffff_ffff_ffff_ffff * 0xffff_ffff_ffff_ffff) by (nonlinear_arith)
        requires
            0 <= low <= 0xffff_ffff_ffff_ffff,
            0 <= wide <= 0xffff_ffff_ffff_ffff,
    ;
    let upper: u128 = high * wide;
    let lower: u128 = low * wide;
    let top: u128 = upper + lower / 0x1_0000_0000_0000_0000u128;
    let rest: u64 = (lower % 0x1_0000_0000_0000_0000u128) as u64;
    assert(a as int * d as int == upper as int * 0x1_0000_0000_0000_0000 + lower as int)
        by (nonlinear_arith)
        requires
            a as int == high as int * 0x1_0000_0000_0000_0000 + low as int,
            upper as int == high as int * d as int,
            lower as int == low as int * d as int,
    ;
    (top, rest)
}

/// The order of fractions is transitive.
pub proof fn lemma_at_least_transitive(a: Ratio, b: Ratio, c: Ratio)
    requires
        a.proper(),
        b.proper(),
        c.proper(),
        a.at_least(b),
        b.at_least(c),
    ensures
        a.at_least(c),
{
    let (an, ad) = (a.num as int, a.den as int);
    let (bn, bd) = (b.num as int, b.den as int);
    let (cn, cd) = (c.num as int, c.den as int);
    assert((an * bd) * cd >= (bn * ad) * cd) by (nonlinear_arith)
        requires
            an * bd >= bn * ad,
            cd > 0,
    ;
    assert((bn * cd) * ad >= (cn * bd) * ad) by (nonlinear_arith)
        requires
            bn * cd >= cn * bd,
            ad > 0,
    ;
    assert((an * cd) * bd >= (cn * ad) * bd) by (nonlinear_arith)
        requires
            (an * bd) * cd >= (bn * ad) * cd,
            (bn * cd) * ad >= (cn * bd) * ad,
    ;
    assert(an * cd >= cn * ad) by (nonlinear_arith)
        requires
            (an * cd) * bd >= (cn * ad) * bd,
            bd > 0,
    ;
}

/// Two fractions of which each is at least the other have the same value,
/// and the other way round.
pub proof fn lemma_same_value_is_both_ways(a: Ratio, b: Ratio)
    ensures
        a.same_value(b) <==> (a.at_least(b) && b.at_least(a)),
        a.at_least(b) || b.at_least(a),
{
}

} // verus!
