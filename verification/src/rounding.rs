//! Rounding to single precision: to the nearest number, and on a tie to the even one.

use vstd::prelude::*;
use vstd::arithmetic::power2::{lemma_pow2_adds, lemma_pow2_pos, lemma_pow2_unfold, pow2};
use crate::scalar::{lemma_magnitude_units_increase, magnitude_units, Scalar, FRACTION_RANGE, INFINITY};

verus! {

/// The bits of one.
pub const ONE: u32 = 0x3f80_0000;

/// The value one in units of `2^-149`.
pub open spec fn one_in_units() -> int {
    pow2(149) as int
}

/// Whether a magnitude is the one that the value `num / den`, counted in units of
/// `2^-149`, rounds to: the value lies between the midpoints to the magnitude's
/// two neighbours, and on a midpoint the even magnitude of the two is taken.
pub open spec fn rounds_to(num: int, den: int, magnitude: int) -> bool {
    &&& 0 <= magnitude <= INFINITY
    &&& magnitude > 0 ==> {
        let midpoint = den * (magnitude_units(magnitude - 1) + magnitude_units(magnitude));
        midpoint < 2 * num || (midpoint == 2 * num && magnitude % 2 == 0)
    }
    &&& magnitude < INFINITY ==> {
        let midpoint = den * (magnitude_units(magnitude) + magnitude_units(magnitude + 1));
        2 * num < midpoint || (2 * num == midpoint && magnitude % 2 == 0)
    }
}

/// The midpoint between a magnitude and the next one, twice.
pub(crate) proof fn lemma_midpoints_increase(den: int, a: int, b: int)
    requires
        den > 0,
        0 <= a < b,
    ensures
        den * (magnitude_units(a) + magnitude_units(a + 1)) < den * (magnitude_units(b)
            + magnitude_units(b + 1)),
{
    lemma_magnitude_units_increase(a, b);
    lemma_magnitude_units_increase(a + 1, b + 1);
    let x = magnitude_units(a) + magnitude_units(a + 1);
    let y = magnitude_units(b) + magnitude_units(b + 1);
    assert(den * x < den * y) by (nonlinear_arith)
        requires
            den > 0,
            x < y,
    ;
}

/// Rounding keeps the order of values. In particular, a value rounds to one
/// magnitude only.
pub proof fn law_rounding_keeps_order(x: int, y: int, den: int, a: int, b: int)
    requires
        den > 0,
        x <= y,
        rounds_to(x, den, a),
        rounds_to(y, den, b),
    ensures
        a <= b,
{
    if b < a && b + 1 < a {
        lemma_midpoints_increase(den, b, a - 1);
    }
}

/// No number is closer to a value than the one it rounds to.
pub proof fn law_rounding_is_closest(num: int, den: int, a: int, b: int)
    requires
        den > 0,
        rounds_to(num, den, a),
        0 <= b <= INFINITY,
    ensures
        vstd::math::abs(num - den * magnitude_units(a)) <= vstd::math::abs(
            num - den * magnitude_units(b),
        ),
{
    let ua = magnitude_units(a);
    let ub = magnitude_units(b);
    if a < b {
        let next = magnitude_units(a + 1);
        lemma_magnitude_units_increase(a, a + 1);
        if a + 1 < b {
            lemma_magnitude_units_increase(a + 1, b);
        }
        assert(den * (ua + next) == den * ua + den * next && den * next <= den * ub && den * ua
            <= den * next) by (nonlinear_arith)
            requires
                den > 0,
                ua <= next,
                next <= ub,
        ;
    } else if b < a {
        let before = magnitude_units(a - 1);
        lemma_magnitude_units_increase(a - 1, a);
        if b < a - 1 {
            lemma_magnitude_units_increase(b, a - 1);
        }
        assert(den * (before + ua) == den * before + den * ua && den * ub <= den * before && den
            * before <= den * ua) by (nonlinear_arith)
            requires
                den > 0,
                before <= ua,
                ub <= before,
        ;
    }
}

/// A number rounds to itself.
pub proof fn law_numbers_round_to_themselves(den: int, magnitude: int)
    requires
        den > 0,
        0 <= magnitude <= INFINITY,
    ensures
        rounds_to(den * magnitude_units(magnitude), den, magnitude),
{
    let u = magnitude_units(magnitude);
    if magnitude > 0 {
        lemma_magnitude_units_increase(magnitude - 1, magnitude);
        let v = magnitude_units(magnitude - 1);
        assert(den * (v + u) < 2 * (den * u)) by (nonlinear_arith)
            requires
                den > 0,
                v < u,
        ;
    }
    lemma_magnitude_units_increase(magnitude, magnitude + 1);
    let w = magnitude_units(magnitude + 1);
    assert(2 * (den * u) < den * (u + w)) by (nonlinear_arith)
        requires
            den > 0,
            u < w,
    ;
}

/// Scaling numerator and denominator alike changes nothing.
proof fn lemma_scaling(num: int, den: int, c: int, magnitude: int)
    requires
        c > 0,
    ensures
        rounds_to(num * c, den * c, magnitude) == rounds_to(num, den, magnitude),
{
    let low = magnitude_units(magnitude - 1) + magnitude_units(magnitude);
    let high = magnitude_units(magnitude) + magnitude_units(magnitude + 1);
    assert((den * c) * low == c * (den * low) && (den * c) * high == c * (den * high) && 2 * (num
        * c) == c * (2 * num)) by (nonlinear_arith);
    let n = 2 * num;
    let l = den * low;
    let h = den * high;
    assert((c * l < c * n <==> l < n) && (c * l == c * n <==> l == n) && (c * n < c * h <==> n < h)
        && (c * n == c * h <==> n == h)) by (nonlinear_arith)
        requires
            c > 0,
    ;
}

/// The values of a magnitude with significand `q` and of the next one.
proof fn lemma_significand(e: int, q: int, magnitude: int)
    requires
        1 <= e,
        FRACTION_RANGE <= q < 2 * FRACTION_RANGE,
        magnitude == e * FRACTION_RANGE + (q - FRACTION_RANGE),
    ensures
        magnitude_units(magnitude) == q * pow2((e - 1) as nat),
        magnitude_units(magnitude + 1) == (q + 1) * pow2((e - 1) as nat),
        magnitude % 2 == q % 2,
{
    assert(magnitude / (FRACTION_RANGE as int) == e);
    assert(magnitude % (FRACTION_RANGE as int) == q - FRACTION_RANGE);
    if q + 1 < 2 * FRACTION_RANGE {
        assert((magnitude + 1) / (FRACTION_RANGE as int) == e);
        assert((magnitude + 1) % (FRACTION_RANGE as int) == q + 1 - FRACTION_RANGE);
    } else {
        assert((magnitude + 1) / (FRACTION_RANGE as int) == e + 1);
        assert((magnitude + 1) % (FRACTION_RANGE as int) == 0);
        lemma_pow2_unfold(e as nat);
        let p = pow2((e - 1) as nat) as int;
        assert(FRACTION_RANGE * (2 * p) == (q + 1) * p) by (nonlinear_arith)
            requires
                q + 1 == 2 * FRACTION_RANGE,
        ;
    }
}

/// The number closest to a value that is given by a significand, the remainder
/// behind it as a fraction of `den`, and an exponent.
fn nearest(q: u64, rem: u64, den: u64, e: u64) -> (r: Scalar)
    requires
        1 <= e <= 253,
        FRACTION_RANGE <= q < 2 * FRACTION_RANGE,
        rem < den <= 0x100_0000_0000,
    ensures
        !r.sign_set(),
        rounds_to((q * den + rem) * pow2((e - 1) as nat), den as int, r.magnitude()),
{
    let floor: u32 = e as u32 * FRACTION_RANGE + (q as u32 - FRACTION_RANGE);
    let up: bool = 2 * rem > den || (2 * rem == den && q % 2 == 1);
    proof {
        lemma_significand(e as int, q as int, floor as int);
        let p = pow2((e - 1) as nat) as int;
        lemma_pow2_pos((e - 1) as nat);
        lemma_magnitude_units_increase(floor - 1, floor as int);
        lemma_magnitude_units_increase(floor + 1, floor + 2);
        let below = magnitude_units(floor - 1);
        let above = magnitude_units(floor + 2);
        let num = (q * den + rem) * p;
        assert(num == den * (q * p) + rem * p) by (nonlinear_arith)
            requires
                num == (q * den + rem) * p,
        ;
        assert(den * (q * p + (q + 1) * p) == 2 * (den * (q * p)) + den * p) by (nonlinear_arith);
        assert((2 * rem < den ==> 2 * (rem * p) < den * p) && (2 * rem > den ==> 2 * (rem * p) > den
            * p) && (2 * rem == den ==> 2 * (rem * p) == den * p) && rem * p >= 0 && rem * p < den
            * p) by (nonlinear_arith)
            requires
                p > 0,
                rem < den,
        ;
        assert(den * (below + q * p) < 2 * (den * (q * p))) by (nonlinear_arith)
            requires
                den > 0,
                below < q * p,
        ;
        assert(den * ((q + 1) * p + above) > 2 * (den * (q * p)) + 2 * (den * p))
            by (nonlinear_arith)
            requires
                den > 0,
                above > (q + 1) * p,
        ;
    }
    if up {
        Scalar { bits: floor + 1 }
    } else {
        Scalar { bits: floor }
    }
}

/// The number closest to `num / den * 2^shift`.
fn ratio(num: u64, den: u64, shift: i64) -> (r: Scalar)
    requires
        0 < den <= 0x100_0000_0000,
        0 < num < den * 0x100_0000,
        -86 <= shift <= 103,
    ensures
        !r.sign_set(),
        rounds_to(num * pow2((149 + shift) as nat), den as int, r.magnitude()),
{
    let mut w: u64 = num;
    let mut t: i64 = 0;
    proof {
        vstd::arithmetic::power2::lemma2_to64();
        assert(num * pow2(0) == num);
    }
    while w / den < 0x80_0000
        invariant
            0 < den <= 0x100_0000_0000,
            0 < num < den * 0x100_0000,
            w == num * pow2(t as nat),
            w < den * 0x100_0000,
            0 <= t <= 63,
        decreases 64 - t,
    {
        proof {
            lemma_pow2_unfold((t + 1) as nat);
            let p = pow2(t as nat) as int;
            assert(num * (2 * p) == 2 * (num * p)) by (nonlinear_arith);
            vstd::arithmetic::div_mod::lemma_fundamental_div_mod(w as int, den as int);
            let d = w as int / den as int;
            assert(w < den * 0x80_0000) by (nonlinear_arith)
                requires
                    w == den * d + w as int % den as int,
                    d <= 0x7f_ffff,
                    0 <= w as int % den as int,
                    (w as int % den as int) < den,
            ;
            if t == 63 {
                vstd::arithmetic::power2::lemma2_to64_rest();
                assert(num * p >= p) by (nonlinear_arith)
                    requires
                        num >= 1,
                        p >= 0,
                ;
            }
        }
        w = w * 2;
        t = t + 1;
    }
    let q: u64 = w / den;
    let rem: u64 = w % den;
    proof {
        vstd::arithmetic::div_mod::lemma_fundamental_div_mod(w as int, den as int);
        assert(q < 0x100_0000) by (nonlinear_arith)
            requires
                w == den * q + rem,
                w < den * 0x100_0000,
        ;
        assert(den * q == q * den) by (nonlinear_arith);
        let p = pow2((149 + shift - t) as nat) as int;
        let s = pow2(t as nat) as int;
        lemma_pow2_adds(t as nat, (149 + shift - t) as nat);
        assert((num * s) * p == num * (s * p)) by (nonlinear_arith);
    }
    nearest(q, rem, den, (150 + shift - t) as u64)
}

/// Whether `r` is the number closest to the fraction `num / den`.
pub open spec fn is_fraction(num: int, den: int, r: Scalar) -> bool {
    !r.sign_set() && rounds_to(num * one_in_units(), den, r.magnitude())
}

/// The number closest to the fraction `num / den` of one.
pub fn fraction(num: u64, den: u64) -> (r: Scalar)
    requires
        0 < den <= 0x1_0000_0000,
        num <= den,
    ensures
        is_fraction(num as int, den as int, r),
{
    if num == 0 {
        proof {
            law_numbers_round_to_themselves(den as int, 0);
        }
        return Scalar { bits: 0 };
    }
    ratio(num, den, 0)
}

/// The number closest to a count.
pub fn whole(n: u64) -> (r: Scalar)
    ensures
        is_fraction(n as int, 1, r),
{
    if n == 0 {
        proof {
            law_numbers_round_to_themselves(1, 0);
        }
        return Scalar { bits: 0 };
    }
    let r = ratio(n, 0x100_0000_0000, 40);
    proof {
        vstd::arithmetic::power2::lemma2_to64_rest();
        lemma_pow2_adds(149, 40);
        let one = one_in_units();
        let c = 0x100_0000_0000int;
        assert((n * one) * c == n * (one * c)) by (nonlinear_arith);
        lemma_scaling(n * one, 1, c, r.magnitude());
    }
    r
}

/// Whether `r` is the number closest to a number divided by a count.
pub open spec fn is_quotient(a: Scalar, den: int, r: Scalar) -> bool {
    !r.sign_set() && rounds_to(a.units(), den, r.magnitude())
}

/// The number closest to a positive number of moderate size divided by a count.
pub fn quotient(a: Scalar, den: u64) -> (r: Scalar)
    requires
        !a.sign_set(),
        64 <= exponent(a) <= 253,
        0 < den <= 0x100_0000_0000,
    ensures
        is_quotient(a, den as int, r),
{
    let e: u32 = a.bits / FRACTION_RANGE;
    let q: u64 = (a.bits % FRACTION_RANGE + FRACTION_RANGE) as u64;
    proof {
        lemma_significand(e as int, q as int, a.magnitude());
    }
    ratio(q, den, e as i64 - 150)
}

/// What the bits of one stand for.
pub(crate) proof fn lemma_one()
    ensures
        magnitude_units(ONE as int) == one_in_units(),
{
    assert(ONE as int / (FRACTION_RANGE as int) == 127);
    assert(ONE as int % (FRACTION_RANGE as int) == 0);
    vstd::arithmetic::power2::lemma2_to64();
    lemma_pow2_adds(23, 126);
}

/// A fraction of one lies between zero and one.
pub proof fn law_fractions_are_at_most_one(num: int, den: int, r: Scalar)
    requires
        0 <= num <= den,
        0 < den,
        is_fraction(num, den, r),
    ensures
        !r.not_a_number(),
        0 <= r.place() <= ONE,
        0 <= r.units() <= one_in_units(),
{
    let one = one_in_units();
    lemma_one();
    lemma_pow2_pos(149);
    law_numbers_round_to_themselves(den, ONE as int);
    assert(num * one <= den * one) by (nonlinear_arith)
        requires
            num <= den,
            one > 0,
    ;
    law_rounding_keeps_order(num * one, den * one, den, r.magnitude(), ONE as int);
    if r.magnitude() < ONE {
        lemma_magnitude_units_increase(r.magnitude(), ONE as int);
    }
    if r.magnitude() > 0 {
        lemma_magnitude_units_increase(0, r.magnitude());
    }
}

/// The exponent field of a number.
pub open spec fn exponent(a: Scalar) -> int {
    a.magnitude() / (FRACTION_RANGE as int)
}

/// Whether `r` is the number closest to the product of two numbers.
pub open spec fn is_product(a: Scalar, b: Scalar, r: Scalar) -> bool {
    !r.sign_set() && rounds_to(a.units() * b.units(), one_in_units(), r.magnitude())
}

/// The number closest to the product of two positive numbers that have full
/// precision, where the product has it too.
pub fn product(a: Scalar, b: Scalar) -> (r: Scalar)
    requires
        !a.sign_set(),
        !b.sign_set(),
        1 <= exponent(a) <= 254,
        1 <= exponent(b) <= 254,
        128 <= exponent(a) + exponent(b) <= 379,
    ensures
        is_product(a, b, r),
{
    let ea: u64 = (a.bits / FRACTION_RANGE) as u64;
    let eb: u64 = (b.bits / FRACTION_RANGE) as u64;
    let qa: u64 = (a.bits % FRACTION_RANGE + FRACTION_RANGE) as u64;
    let qb: u64 = (b.bits % FRACTION_RANGE + FRACTION_RANGE) as u64;
    proof {
        assert(0x80_0000 * 0x80_0000 <= qa * qb && qa * qb < 0x100_0000 * 0x100_0000)
            by (nonlinear_arith)
            requires
                0x80_0000 <= qa < 0x100_0000,
                0x80_0000 <= qb < 0x100_0000,
        ;
    }
    let p: u64 = qa * qb;
    let (shift, den): (u64, u64) = if p >= 0x8000_0000_0000 {
        (24, 0x100_0000)
    } else {
        (23, 0x80_0000)
    };
    let q: u64 = p / den;
    let rem: u64 = p % den;
    let e: u64 = ea + eb + shift - 150;
    proof {
        vstd::arithmetic::power2::lemma2_to64();
        assert(den == pow2(shift as nat));
        assert(p == q * den + rem);
        let pa = pow2((ea - 1) as nat) as int;
        let pb = pow2((eb - 1) as nat) as int;
        lemma_significand(ea as int, qa as int, a.magnitude());
        lemma_significand(eb as int, qb as int, b.magnitude());
        assert(a.units() == qa * pa && b.units() == qb * pb);
        assert((qa * pa) * (qb * pb) == (qa * qb) * (pa * pb)) by (nonlinear_arith);
        lemma_pow2_adds((ea - 1) as nat, (eb - 1) as nat);
        let c = pow2((149 - shift) as nat) as int;
        lemma_pow2_pos((149 - shift) as nat);
        lemma_pow2_adds((e - 1) as nat, (149 - shift) as nat);
        lemma_pow2_adds(shift as nat, (149 - shift) as nat);
        let pe = pow2((e - 1) as nat) as int;
        assert((p * pe) * c == p * (pe * c)) by (nonlinear_arith);
        assert forall|m: int| rounds_to(p * pe, den as int, m) implies #[trigger] rounds_to(
            a.units() * b.units(),
            one_in_units(),
            m,
        ) by {
            lemma_scaling(p * pe, den as int, c, m);
        }
    }
    let r = nearest(q, rem, den, e);
    assert(rounds_to(p * pow2((e - 1) as nat), den as int, r.magnitude()));
    r
}

/// A whole number of at most 24 bits over a moderate power of two is a number.
pub(crate) proof fn lemma_short_fraction(c: int, k: int) -> (magnitude: int)
    requires
        0 < c < 0x100_0000,
        0 <= k <= 100,
    ensures
        0 < magnitude < INFINITY,
        magnitude_units(magnitude) == c * pow2((149 - k) as nat),
{
    vstd::arithmetic::power2::lemma2_to64();
    lemma_normalized(c, k, 23)
}

proof fn lemma_normalized(c: int, k: int, doublings: nat) -> (magnitude: int)
    requires
        0 < c < 0x100_0000,
        0 <= k,
        k + doublings <= 148,
        c * pow2(doublings) >= FRACTION_RANGE,
    ensures
        0 < magnitude < INFINITY,
        magnitude_units(magnitude) == c * pow2((149 - k) as nat),
    decreases doublings,
{
    if c >= FRACTION_RANGE {
        let m = (150 - k) * FRACTION_RANGE + (c - FRACTION_RANGE);
        lemma_significand(150 - k, c, m);
        m
    } else {
        if doublings == 0 {
            vstd::arithmetic::power2::lemma2_to64();
        }
        lemma_pow2_unfold(doublings);
        lemma_pow2_unfold((149 - k) as nat);
        let d = pow2((doublings - 1) as nat) as int;
        let p = pow2((148 - k) as nat) as int;
        assert(c * (2 * p) == (2 * c) * p && c * (2 * d) == (2 * c) * d) by (nonlinear_arith);
        lemma_normalized(2 * c, k + 1, (doublings - 1) as nat)
    }
}

/// A value that is no more than a number rounds to no more than that number.
pub(crate) proof fn lemma_rounds_at_most(num: int, den: int, m: int, bound: int)
    requires
        den > 0,
        rounds_to(num, den, m),
        0 <= bound <= INFINITY,
        num <= den * magnitude_units(bound),
    ensures
        m <= bound,
{
    law_numbers_round_to_themselves(den, bound);
    law_rounding_keeps_order(num, den * magnitude_units(bound), den, m, bound);
}

/// A value that is no less than a number rounds to no less than that number.
pub(crate) proof fn lemma_rounds_at_least(num: int, den: int, m: int, bound: int)
    requires
        den > 0,
        rounds_to(num, den, m),
        0 <= bound <= INFINITY,
        num >= den * magnitude_units(bound),
    ensures
        m >= bound,
{
    law_numbers_round_to_themselves(den, bound);
    law_rounding_keeps_order(den * magnitude_units(bound), num, den, bound, m);
}

/// Whether no number is closer to `num / den`, counted in units of `2^-149`, than `r`
/// is, and on a tie `r` is the even one.
pub open spec fn is_closest(num: int, den: int, r: Scalar) -> bool {
    &&& !r.sign_set()
    &&& !r.not_a_number()
    &&& forall|other: Scalar|
        !other.sign_set() && !other.not_a_number() ==> #[trigger] at_least_as_close(
            num,
            den,
            r,
            other,
        )
}

/// Whether `r` is closer to `num / den` than another number is, or as close and even,
/// or is the other number.
pub open spec fn at_least_as_close(num: int, den: int, r: Scalar, other: Scalar) -> bool {
    let here = vstd::math::abs(num - den * r.units());
    let there = vstd::math::abs(num - den * other.units());
    here < there || (here == there && (r == other || r.bits % 2 == 0))
}

/// A value rounds to the number closest to it, and on a tie to the even one.
pub proof fn law_rounding_is_to_the_closest(num: int, den: int, r: Scalar)
    requires
        den > 0,
        !r.sign_set(),
        rounds_to(num, den, r.magnitude()),
    ensures
        is_closest(num, den, r),
{
    assert forall|other: Scalar|
        !other.sign_set() && !other.not_a_number() implies #[trigger] at_least_as_close(
        num,
        den,
        r,
        other,
    ) by {
        let a = r.magnitude();
        let b = other.magnitude();
        let ua = magnitude_units(a);
        let ub = magnitude_units(b);
        if a < b {
            let next = magnitude_units(a + 1);
            lemma_magnitude_units_increase(a, a + 1);
            if a + 1 < b {
                lemma_magnitude_units_increase(a + 1, b);
            }
            lemma_strict_products(den, ua, next, ub);
        } else if b < a {
            let before = magnitude_units(a - 1);
            lemma_magnitude_units_increase(a - 1, a);
            if b < a - 1 {
                lemma_magnitude_units_increase(b, a - 1);
            }
            lemma_strict_products(den, ub, before, ua);
        }
    }
}

proof fn lemma_strict_products(den: int, x: int, y: int, z: int)
    requires
        den > 0,
        x <= y <= z,
    ensures
        den * x <= den * y <= den * z,
        x < y ==> den * x < den * y,
        y < z ==> den * y < den * z,
        den * (x + y) == den * x + den * y,
        den * (y + z) == den * y + den * z,
{
    assert(den * (x + y) == den * x + den * y && den * (y + z) == den * y + den * z)
        by (nonlinear_arith);
    assert(den * x <= den * y && (x < y ==> den * x < den * y)) by (nonlinear_arith)
        requires
            den > 0,
            x <= y,
    ;
    assert(den * y <= den * z && (y < z ==> den * y < den * z)) by (nonlinear_arith)
        requires
            den > 0,
            y <= z,
    ;
}

/// A fraction is the number closest to `num / den`.
pub proof fn law_fraction_is_closest(num: int, den: int, r: Scalar)
    requires
        den > 0,
        is_fraction(num, den, r),
    ensures
        is_closest(num * pow2(149), den, r),
{
    law_rounding_is_to_the_closest(num * pow2(149), den, r);
}

/// A quotient is the number closest to a number's value divided by `den`.
pub proof fn law_quotient_is_closest(a: Scalar, den: int, r: Scalar)
    requires
        den > 0,
        is_quotient(a, den, r),
    ensures
        is_closest(a.units(), den, r),
{
    law_rounding_is_to_the_closest(a.units(), den, r);
}

/// A product is the number closest to the product of the two values.
pub proof fn law_product_is_closest(a: Scalar, b: Scalar, r: Scalar)
    requires
        is_product(a, b, r),
    ensures
        is_closest(a.units() * b.units(), pow2(149) as int, r),
{
    lemma_pow2_pos(149);
    law_rounding_is_to_the_closest(a.units() * b.units(), pow2(149) as int, r);
}

} // verus!
