//! Single-precision numbers as bit patterns.
//!
//! The carving rules never need more of a distance than its sign and its place
//! in the order of numbers. Both can be read off the binary32 bit pattern with
//! integer operations, so that is what a [`Scalar`] holds.

use vstd::prelude::*;
use vstd::arithmetic::power2::{lemma_pow2_pos, lemma_pow2_strictly_increases, lemma_pow2_unfold, pow2};

verus! {

/// The weight of the sign bit.
pub const SIGN: u32 = 0x8000_0000;

/// The bit pattern of positive infinity: the largest magnitude that is a number.
pub const INFINITY: u32 = 0x7f80_0000;

/// The weight of the lowest exponent bit; fractions are below it.
pub const FRACTION_RANGE: u32 = 0x0080_0000;

/// A number in the binary32 format of IEEE 754, held as its bit pattern.
#[derive(Clone, Copy, Debug, PartialEq, Eq, Structural)]
pub struct Scalar {
    pub bits: u32,
}

impl Scalar {
    /// Whether the sign bit is set.
    pub open spec fn sign_set(self) -> bool {
        self.bits >= SIGN
    }

    /// The bit pattern without its sign bit.
    pub open spec fn magnitude(self) -> int {
        if self.sign_set() {
            self.bits - SIGN
        } else {
            self.bits as int
        }
    }

    /// Whether the pattern stands for no number.
    pub open spec fn not_a_number(self) -> bool {
        self.magnitude() > INFINITY
    }

    /// Where a number stands in the order of numbers. The two zeros share a place.
    pub open spec fn place(self) -> int {
        if self.sign_set() {
            -self.magnitude()
        } else {
            self.magnitude()
        }
    }

    /// The exact value of a finite number, counted in units of `2^-149`, the
    /// smallest positive number. An infinity counts as the power of two that
    /// follows the largest finite number.
    pub open spec fn units(self) -> int {
        if self.sign_set() {
            -magnitude_units(self.magnitude())
        } else {
            magnitude_units(self.magnitude())
        }
    }

    /// `self < other` between numbers; false where either is not a number.
    pub open spec fn below(self, other: Scalar) -> bool {
        !self.not_a_number() && !other.not_a_number() && self.place() < other.place()
    }

    /// `self < 0`.
    pub open spec fn negative(self) -> bool {
        !self.not_a_number() && self.place() < 0
    }

    /// The same magnitude with the opposite sign.
    pub open spec fn opposite(self) -> Scalar {
        if self.sign_set() {
            Scalar { bits: (self.bits - SIGN) as u32 }
        } else {
            Scalar { bits: (self.bits + SIGN) as u32 }
        }
    }

    /// The larger of two numbers; a pattern that is not a number gives way.
    pub open spec fn larger(self, other: Scalar) -> Scalar {
        if self.not_a_number() {
            other
        } else if other.not_a_number() || self.place() >= other.place() {
            self
        } else {
            other
        }
    }

    /// The smaller of two numbers; a pattern that is not a number gives way.
    pub open spec fn smaller(self, other: Scalar) -> Scalar {
        if self.not_a_number() {
            other
        } else if other.not_a_number() || self.place() <= other.place() {
            self
        } else {
            other
        }
    }

    /// Splits the pattern into its sign bit and the rest.
    fn split(self) -> (parts: (bool, u32))
        ensures
            parts.0 == self.sign_set(),
            parts.1 == self.magnitude(),
    {
        if self.bits >= SIGN {
            (true, self.bits - SIGN)
        } else {
            (false, self.bits)
        }
    }

    /// Whether the pattern stands for no number.
    pub fn is_nan(self) -> (r: bool)
        ensures
            r == self.not_a_number(),
    {
        self.split().1 > INFINITY
    }

    /// The order of numbers: `self < other`, false where either is not a number.
    pub fn lt(self, other: Scalar) -> (r: bool)
        ensures
            r == self.below(other),
    {
        let (sign_a, a) = self.split();
        let (sign_b, b) = other.split();
        if a > INFINITY || b > INFINITY {
            false
        } else if sign_a {
            if sign_b {
                b < a
            } else {
                a > 0 || b > 0
            }
        } else {
            !sign_b && a < b
        }
    }

    /// `self < 0`: the test that tells inside from outside.
    pub fn is_negative(self) -> (r: bool)
        ensures
            r == self.negative(),
    {
        self.lt(Scalar { bits: 0 })
    }

    /// Negation: flips the sign bit.
    pub fn neg(self) -> (r: Scalar)
        ensures
            r == self.opposite(),
    {
        if self.bits >= SIGN {
            Scalar { bits: self.bits - SIGN }
        } else {
            Scalar { bits: self.bits + SIGN }
        }
    }

    /// The larger of two numbers. Of two equal ones, `self`; where one of the
    /// two is not a number, the other.
    pub fn max(self, other: Scalar) -> (r: Scalar)
        ensures
            r == self.larger(other),
    {
        if self.is_nan() || self.lt(other) {
            other
        } else {
            self
        }
    }

    /// The smaller of two numbers. Of two equal ones, `self`; where one of the
    /// two is not a number, the other.
    pub fn min(self, other: Scalar) -> (r: Scalar)
        ensures
            r == self.smaller(other),
    {
        if self.is_nan() || other.lt(self) {
            other
        } else {
            self
        }
    }
}

/// The value of a magnitude in units of `2^-149`: the fraction alone below the
/// first exponent step, and from there on the fraction with its leading one,
/// doubled once for each further step.
pub open spec fn magnitude_units(magnitude: int) -> int {
    let exponent = magnitude / (FRACTION_RANGE as int);
    let fraction = magnitude % (FRACTION_RANGE as int);
    if exponent <= 0 {
        fraction
    } else {
        (FRACTION_RANGE + fraction) * pow2((exponent - 1) as nat)
    }
}

/// A larger magnitude has a larger value.
pub(crate) proof fn lemma_magnitude_units_increase(a: int, b: int)
    requires
        0 <= a < b,
    ensures
        0 <= magnitude_units(a) < magnitude_units(b),
{
    let range = FRACTION_RANGE as int;
    let ea = a / range;
    let fa = a % range;
    let eb = b / range;
    let fb = b % range;
    assert(a == ea * range + fa && 0 <= fa < range);
    assert(b == eb * range + fb && 0 <= fb < range);
    assert(0 <= ea <= eb);
    if ea >= 1 {
        lemma_pow2_pos((ea - 1) as nat);
        let p = pow2((ea - 1) as nat) as int;
        assert((range + fa) * p < 2 * range * p) by (nonlinear_arith)
            requires
                p > 0,
                0 <= fa < range,
        ;
        assert((range + fa) * p >= 0) by (nonlinear_arith)
            requires
                p > 0,
                0 <= fa < range,
        ;
        if ea == eb {
            assert((range + fa) * p < (range + fb) * p) by (nonlinear_arith)
                requires
                    p > 0,
                    fa < fb,
            ;
        } else {
            lemma_pow2_unfold(ea as nat);
            if eb - 1 > ea {
                lemma_pow2_strictly_increases(ea as nat, (eb - 1) as nat);
            }
            let q = pow2((eb - 1) as nat) as int;
            assert(q >= 2 * p);
            assert((range + fb) * q >= 2 * range * p) by (nonlinear_arith)
                requires
                    q >= 2 * p,
                    p > 0,
                    range > 0,
                    fb >= 0,
            ;
        }
    } else if eb >= 1 {
        lemma_pow2_pos((eb - 1) as nat);
        let q = pow2((eb - 1) as nat) as int;
        assert((range + fb) * q >= range) by (nonlinear_arith)
            requires
                q >= 1,
                range > 0,
                fb >= 0,
        ;
    }
}

/// The order of places is the order of values: a number comes before another
/// exactly where its value is the smaller one.
pub proof fn law_order_is_order_of_values(a: Scalar, b: Scalar)
    requires
        !a.not_a_number(),
        !b.not_a_number(),
    ensures
        a.below(b) <==> a.units() < b.units(),
        a.place() == b.place() <==> a.units() == b.units(),
{
    let ma = a.magnitude();
    let mb = b.magnitude();
    if ma < mb {
        lemma_magnitude_units_increase(ma, mb);
    } else if mb < ma {
        lemma_magnitude_units_increase(mb, ma);
    }
    if 0 < ma {
        lemma_magnitude_units_increase(0, ma);
    }
    if 0 < mb {
        lemma_magnitude_units_increase(0, mb);
    }
}

/// Negation is exact: it turns the value round, and twice is not at all.
pub proof fn law_opposite_is_exact(a: Scalar)
    ensures
        a.opposite().units() == -a.units(),
        a.opposite().place() == -a.place(),
        a.opposite().not_a_number() == a.not_a_number(),
        a.opposite().opposite() == a,
{
}

/// What a bit pattern stands for: a sign bit, eight exponent bits and 23 fraction
/// bits, with the value that the format gives them in units of `2^-149`.
pub proof fn law_bits_of_a_number(s: Scalar, sign: int, exponent: int, fraction: int)
    requires
        0 <= sign <= 1,
        0 <= exponent <= 255,
        0 <= fraction < 0x80_0000,
        s.bits == sign * 0x8000_0000 + exponent * 0x80_0000 + fraction,
    ensures
        s.sign_set() <==> sign == 1,
        s.magnitude() == exponent * 0x80_0000 + fraction,
        s.place() == (if sign == 1 {
            -(exponent * 0x80_0000 + fraction)
        } else {
            exponent * 0x80_0000 + fraction
        }),
        s.not_a_number() <==> exponent == 255 && fraction > 0,
        exponent == 0 && sign == 0 ==> s.units() == fraction,
        exponent == 0 && sign == 1 ==> s.units() == -fraction,
        exponent > 0 && sign == 0 ==> s.units() == (0x80_0000 + fraction) * pow2(
            (exponent - 1) as nat,
        ),
        exponent > 0 && sign == 1 ==> s.units() == -((0x80_0000 + fraction) * pow2(
            (exponent - 1) as nat,
        )),
{
    let m = exponent * 0x80_0000 + fraction;
    assert(m / 0x80_0000 == exponent && m % 0x80_0000 == fraction);
}

/// Comparison is comparison of values: between numbers by value, and false wherever
/// one of the two is not a number.
pub proof fn law_comparison_is_by_value(a: Scalar, b: Scalar)
    ensures
        a.below(b) <==> !a.not_a_number() && !b.not_a_number() && a.units() < b.units(),
        a.negative() <==> !a.not_a_number() && a.units() < 0,
{
    if !a.not_a_number() {
        law_order_is_order_of_values(a, Scalar { bits: 0 });
        if !b.not_a_number() {
            law_order_is_order_of_values(a, b);
        }
    }
}

/// The maximum and the minimum of two are one of the two, with the larger and with
/// the smaller value. What is not a number gives way, and of two with one value the
/// first is taken.
pub proof fn law_extremes_are_by_value(a: Scalar, b: Scalar)
    ensures
        a.not_a_number() ==> a.larger(b) == b && a.smaller(b) == b,
        !a.not_a_number() && b.not_a_number() ==> a.larger(b) == a && a.smaller(b) == a,
        !a.not_a_number() && !b.not_a_number() ==> {
            &&& a.larger(b) == (if a.units() >= b.units() {
                a
            } else {
                b
            })
            &&& a.smaller(b) == (if a.units() <= b.units() {
                a
            } else {
                b
            })
        },
{
    if !a.not_a_number() && !b.not_a_number() {
        law_order_is_order_of_values(a, b);
        law_order_is_order_of_values(b, a);
    }
}

} // verus!
