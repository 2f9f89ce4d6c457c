//! Deterministic scatter: where the bubbles of a wheel land.
//!
//! No random numbers are involved. Every choice is a hash of the wheel's seed
//! and the bubble's index.

use vstd::prelude::*;
use vstd::arithmetic::power2::{lemma_pow2_adds, lemma_pow2_pos, pow2};
use crate::rounding::{at_least_as_close, fraction, is_fraction, law_fraction_is_closest, law_fractions_are_at_most_one, law_rounding_keeps_order, lemma_midpoints_increase, lemma_one, one_in_units, ONE};
use crate::scalar::{lemma_magnitude_units_increase, magnitude_units, Scalar, FRACTION_RANGE};
use crate::wheel::CheeseSpec;

verus! {

/// The bits of one half.
pub const HALF: u32 = 0x3f00_0000;

/// How many hashes there are.
pub const HASHES: u64 = 0x1_0000_0000;

/// The mixed bits from which on a fraction of [`HASHES`] would round up to one.
pub const TOPMOST: u32 = 0xffff_ff80;

/// The bits of the largest number below one.
pub const BELOW_ONE: u32 = 0x3f7f_ffff;

/// The odd constant that spreads consecutive indices over all bit positions.
pub const WEYL: u32 = 0x9e37_79b9;

/// An integer bit avalanche: two multiply and xor-shift rounds and a last shift.
pub open spec fn avalanched(h: u32) -> u32 {
    let a: u32 = h ^ (h >> 16);
    let b: u32 = a.wrapping_mul(0x7feb352d);
    let c: u32 = b ^ (b >> 15);
    let d: u32 = c.wrapping_mul(0x846ca68b);
    d ^ (d >> 16)
}

/// Mixes the bits of `h`.
pub fn avalanche(h: u32) -> (r: u32)
    ensures
        r == avalanched(h),
{
    let a: u32 = h ^ (h >> 16);
    let b: u32 = a.wrapping_mul(0x7feb352d);
    let c: u32 = b ^ (b >> 15);
    let d: u32 = c.wrapping_mul(0x846ca68b);
    d ^ (d >> 16)
}

/// Whether `r` is the hash of `h`: the number closest to `avalanched(h) / 2^32`, or
/// the largest number below one where the closest would be one.
pub open spec fn is_swiss_hash(h: u32, r: Scalar) -> bool {
    if avalanched(h) < TOPMOST {
        is_fraction(avalanched(h) as int, HASHES as int, r)
    } else {
        r.bits == BELOW_ONE
    }
}

/// A hash of `h`, mapped to the numbers from zero up to but not including one.
/// Referentially transparent: a given input always yields the same output.
pub fn swiss_hash(h: u32) -> (r: Scalar)
    ensures
        is_swiss_hash(h, r),
        !r.negative(),
        r.below(Scalar { bits: ONE }),
{
    let mixed = avalanche(h);
    let r = if mixed < TOPMOST {
        fraction(mixed as u64, HASHES)
    } else {
        Scalar { bits: BELOW_ONE }
    };
    proof {
        law_swiss_hash_range(h, r);
    }
    r
}

/// What the seed and an index decide about one bubble.
#[derive(Clone, Copy, Debug, PartialEq, Eq, Structural)]
pub struct Bubble {
    /// Which of the two cut faces the bubble sits on: the one half a bite above
    /// the `x` axis, or the one half a bite below it.
    pub upper_face: bool,
    /// How far out along the face, as a fraction of the room there is.
    pub radial: Scalar,
    /// How far up, as a fraction of the room there is.
    pub height: Scalar,
    /// How large, as a fraction of the way from the smallest radius to the largest.
    pub size: Scalar,
}

/// The bits that everything about bubble `i` is hashed from: the seed's own bits
/// folded with the index's multiple of [`WEYL`].
pub open spec fn bubble_base(seed: Scalar, i: usize) -> u32 {
    seed.bits ^ (i as u32).wrapping_mul(WEYL)
}

impl Bubble {
    /// The angle of the cut face that the bubble sits on, given half the bite.
    pub fn face(self, half: Scalar) -> (r: Scalar)
        ensures
            r == (if self.upper_face {
                half
            } else {
                half.opposite()
            }),
    {
        if self.upper_face {
            half
        } else {
            half.neg()
        }
    }
}

/// Whether `b` is bubble `i` of a wheel with this seed.
pub open spec fn is_bubble(seed: Scalar, i: usize, b: Bubble) -> bool {
    let base = bubble_base(seed, i);
    &&& exists|face: Scalar| #[trigger]
        is_swiss_hash(base ^ 0xA1, face) && b.upper_face == face.below(Scalar { bits: HALF })
    &&& is_swiss_hash(base ^ 0xB2, b.radial)
    &&& is_swiss_hash(base ^ 0xC3, b.height)
    &&& is_swiss_hash(base ^ 0xD4, b.size)
}

/// Derives bubble `i` purely from the wheel's seed and the index.
pub fn bubble(spec: &CheeseSpec, i: usize) -> (b: Bubble)
    ensures
        is_bubble(spec.hole_seed, i, b),
{
    let base: u32 = spec.hole_seed.bits ^ (i as u32).wrapping_mul(WEYL);
    let which_face = swiss_hash(base ^ 0xA1);
    let radial = swiss_hash(base ^ 0xB2);
    let height = swiss_hash(base ^ 0xC3);
    let size = swiss_hash(base ^ 0xD4);
    assert(is_swiss_hash(bubble_base(spec.hole_seed, i) ^ 0xA1, which_face));
    Bubble { upper_face: which_face.lt(Scalar { bits: HALF }), radial, height, size }
}

/// A hash has one value: whatever is the hash of `h` is the hash of `h`, bit for bit.
pub proof fn law_swiss_hash_is_a_function(h: u32, a: Scalar, b: Scalar)
    requires
        is_swiss_hash(h, a),
        is_swiss_hash(h, b),
    ensures
        a == b,
{
    if avalanched(h) < TOPMOST {
        let value = avalanched(h) * one_in_units();
        law_rounding_keeps_order(value, value, HASHES as int, a.magnitude(), b.magnitude());
        law_rounding_keeps_order(value, value, HASHES as int, b.magnitude(), a.magnitude());
    }
}

/// Every hash lies in the half-open range from zero to one.
pub proof fn law_swiss_hash_range(h: u32, r: Scalar)
    requires
        is_swiss_hash(h, r),
    ensures
        !r.not_a_number(),
        0 <= r.place() < ONE,
        0 <= r.units() < one_in_units(),
{
    let n = avalanched(h);
    let one = ONE as int;
    let m = r.magnitude();
    lemma_one();
    if n < TOPMOST {
        law_fractions_are_at_most_one(n as int, HASHES as int, r);
        vstd::arithmetic::power2::lemma2_to64();
        lemma_pow2_adds(24, 125);
        lemma_pow2_pos(125);
        let p = pow2(125) as int;
        assert(magnitude_units(one - 1) == 0xff_ffff * p) by {
            assert((one - 1) / (FRACTION_RANGE as int) == 126);
            assert((one - 1) % (FRACTION_RANGE as int) == 0x7f_ffff);
        }
        assert(2 * (n * (0x100_0000 * p)) < 0x1_0000_0000 * (0xff_ffff * p + 0x100_0000 * p))
            by (nonlinear_arith)
            requires
                p > 0,
                n < 0xffff_ff80,
        ;
    }
    lemma_magnitude_units_increase(m, one);
}

/// A hash is capped only where it has to be: where the mixed bits are among the
/// topmost, the number closest to their fraction is one.
pub proof fn law_only_one_is_capped(h: u32, r: Scalar)
    requires
        avalanched(h) >= TOPMOST,
        is_fraction(avalanched(h) as int, HASHES as int, r),
    ensures
        r.bits == ONE,
{
    let n = avalanched(h);
    let one = ONE as int;
    let m = r.magnitude();
    law_fractions_are_at_most_one(n as int, HASHES as int, r);
    vstd::arithmetic::power2::lemma2_to64();
    lemma_pow2_adds(24, 125);
    lemma_pow2_pos(125);
    lemma_one();
    let p = pow2(125) as int;
    assert(magnitude_units(one - 1) == 0xff_ffff * p) by {
        assert((one - 1) / (FRACTION_RANGE as int) == 126);
        assert((one - 1) % (FRACTION_RANGE as int) == 0x7f_ffff);
    }
    assert(2 * (n * (0x100_0000 * p)) >= 0x1_0000_0000 * (0xff_ffff * p + 0x100_0000 * p))
        by (nonlinear_arith)
        requires
            p > 0,
            n >= 0xffff_ff80,
    ;
    if m < one - 1 {
        lemma_midpoints_increase(HASHES as int, m, one - 1);
    }
}

/// Multiplying by a number that has an inverse loses nothing.
proof fn lemma_multiplication_is_injective(a: u32, b: u32, factor: u32, inverse: u32)
    requires
        (factor * inverse) % 0x1_0000_0000 == 1,
        a.wrapping_mul(factor) == b.wrapping_mul(factor),
    ensures
        a == b,
{
    lemma_multiplication_is_undone(a, factor, inverse);
    lemma_multiplication_is_undone(b, factor, inverse);
}

proof fn lemma_multiplication_is_undone(a: u32, factor: u32, inverse: u32)
    requires
        (factor * inverse) % 0x1_0000_0000 == 1,
    ensures
        (a.wrapping_mul(factor) * inverse) % 0x1_0000_0000 == a,
{
    let m = 0x1_0000_0000int;
    let product = a * factor;
    vstd::arithmetic::div_mod::lemma_mul_mod_noop_left(product, inverse as int, m);
    assert(product * inverse == a * (factor * inverse)) by (nonlinear_arith)
        requires
            product == a * factor,
    ;
    vstd::arithmetic::div_mod::lemma_mul_mod_noop_right(a as int, factor * inverse, m);
}

/// The avalanche loses nothing: different inputs give different outputs.
pub proof fn law_avalanche_is_injective(a: u32, b: u32)
    requires
        avalanched(a) == avalanched(b),
    ensures
        a == b,
{
    let a1: u32 = a ^ (a >> 16);
    let b1: u32 = b ^ (b >> 16);
    let a2: u32 = a1.wrapping_mul(0x7feb352d);
    let b2: u32 = b1.wrapping_mul(0x7feb352d);
    let a3: u32 = a2 ^ (a2 >> 15);
    let b3: u32 = b2 ^ (b2 >> 15);
    let a4: u32 = a3.wrapping_mul(0x846ca68b);
    let b4: u32 = b3.wrapping_mul(0x846ca68b);
    assert(a4 ^ (a4 >> 16) == b4 ^ (b4 >> 16) ==> a4 == b4) by (bit_vector);
    lemma_multiplication_is_injective(a3, b3, 0x846ca68b, 0x43021123);
    assert(a2 ^ (a2 >> 15) == b2 ^ (b2 >> 15) ==> a2 == b2) by (bit_vector);
    lemma_multiplication_is_injective(a1, b1, 0x7feb352d, 0x1d69e2a5);
    assert(a ^ (a >> 16) == b ^ (b >> 16) ==> a == b) by (bit_vector);
}

/// No two bubbles of a wheel are hashed from the same bits, as far as 32 bits can
/// tell their indices apart.
pub proof fn law_bubbles_have_their_own_bits(seed: Scalar, i: usize, j: usize)
    requires
        i <= u32::MAX,
        j <= u32::MAX,
        i != j,
    ensures
        bubble_base(seed, i) != bubble_base(seed, j),
{
    let x: u32 = (i as u32).wrapping_mul(WEYL);
    let y: u32 = (j as u32).wrapping_mul(WEYL);
    let bits = seed.bits;
    assert(bits ^ x == bits ^ y ==> x == y) by (bit_vector);
    if x == y {
        lemma_multiplication_is_injective(i as u32, j as u32, WEYL, 0x144cbc89);
    }
}

/// The same seed gives bit-identical bubbles, whatever else differs between two
/// wheels: their size, their bite or how many holes they have.
pub proof fn law_same_seed_same_bubbles(
    first: CheeseSpec,
    second: CheeseSpec,
    i: usize,
    a: Bubble,
    b: Bubble,
)
    requires
        first.hole_seed == second.hole_seed,
        is_bubble(first.hole_seed, i, a),
        is_bubble(second.hole_seed, i, b),
    ensures
        a == b,
{
    let base = bubble_base(first.hole_seed, i);
    let half = Scalar { bits: HALF };
    let face_a = choose|face: Scalar| #[trigger]
        is_swiss_hash(base ^ 0xA1, face) && a.upper_face == face.below(half);
    let face_b = choose|face: Scalar| #[trigger]
        is_swiss_hash(base ^ 0xA1, face) && b.upper_face == face.below(half);
    law_swiss_hash_is_a_function(base ^ 0xA1, face_a, face_b);
    law_swiss_hash_is_a_function(base ^ 0xB2, a.radial, b.radial);
    law_swiss_hash_is_a_function(base ^ 0xC3, a.height, b.height);
    law_swiss_hash_is_a_function(base ^ 0xD4, a.size, b.size);
}

/// Multiplying by an inverse brings a wrapped product back.
proof fn lemma_product_comes_back(a: u32, factor: u32, inverse: u32)
    requires
        (factor * inverse) % 0x1_0000_0000 == 1,
    ensures
        a.wrapping_mul(factor).wrapping_mul(inverse) == a,
{
    lemma_multiplication_is_undone(a, factor, inverse);
}

/// The avalanche can be run backward: its steps undone one by one, from the last to
/// the first, lead back to the input.
pub proof fn law_avalanche_is_undone(h: u32)
    ensures
        ({
            let r = avalanched(h);
            let d: u32 = r ^ (r >> 16);
            let c: u32 = d.wrapping_mul(0x43021123);
            let b: u32 = c ^ (c >> 15) ^ (c >> 30);
            let a: u32 = b.wrapping_mul(0x1d69e2a5);
            a ^ (a >> 16)
        }) == h,
{
    let a: u32 = h ^ (h >> 16);
    let b: u32 = a.wrapping_mul(0x7feb352d);
    let c: u32 = b ^ (b >> 15);
    let d: u32 = c.wrapping_mul(0x846ca68b);
    let r: u32 = d ^ (d >> 16);
    assert(r ^ (r >> 16) == d) by (bit_vector)
        requires
            r == d ^ (d >> 16),
    ;
    lemma_product_comes_back(c, 0x846ca68b, 0x43021123);
    assert(c ^ (c >> 15) ^ (c >> 30) == b) by (bit_vector)
        requires
            c == b ^ (b >> 15),
    ;
    lemma_product_comes_back(a, 0x7feb352d, 0x1d69e2a5);
    assert(a ^ (a >> 16) == h) by (bit_vector)
        requires
            a == h ^ (h >> 16),
    ;
}

/// A hash is the number below one that is closest to the mixed bits over `2^32`.
pub proof fn law_hash_is_closest_below_one(h: u32, r: Scalar, other: Scalar)
    requires
        is_swiss_hash(h, r),
        !other.sign_set(),
        !other.not_a_number(),
        other.units() < pow2(149),
    ensures
        !r.sign_set(),
        !r.not_a_number(),
        r.units() < pow2(149),
        at_least_as_close(avalanched(h) * pow2(149), 0x1_0000_0000, r, other),
{
    let n = avalanched(h);
    law_swiss_hash_range(h, r);
    if n < TOPMOST {
        law_fraction_is_closest(n as int, HASHES as int, r);
    } else {
        let one = ONE as int;
        let a = r.magnitude();
        let b = other.magnitude();
        lemma_one();
        if b >= one {
            if b > one {
                lemma_magnitude_units_increase(one, b);
            }
        } else if b < a {
            lemma_magnitude_units_increase(b, a);
        }
        vstd::arithmetic::power2::lemma2_to64();
        lemma_pow2_adds(24, 125);
        lemma_pow2_pos(125);
        let p = pow2(125) as int;
        assert(magnitude_units(a) == 0xff_ffff * p) by {
            assert((one - 1) / (FRACTION_RANGE as int) == 126);
            assert((one - 1) % (FRACTION_RANGE as int) == 0x7f_ffff);
        }
        let u = other.units();
        assert(n * (0x100_0000 * p) >= 0x1_0000_0000 * (0xff_ffff * p)) by (nonlinear_arith)
            requires
                p > 0,
                n >= 0xffff_ff80,
        ;
    }
}

/// A hash is below one half exactly where the mixed bits are below one half of their
/// range, less the 64 that round up to it.
proof fn lemma_lower_half(h: u32, r: Scalar)
    requires
        is_swiss_hash(h, r),
    ensures
        r.below(Scalar { bits: 0x3f00_0000 }) <==> avalanched(h) < 0x7fff_ffc0,
{
    let n = avalanched(h);
    let half = 0x3f00_0000int;
    let m = r.magnitude();
    law_swiss_hash_range(h, r);
    if n < TOPMOST {
        vstd::arithmetic::power2::lemma2_to64();
        lemma_pow2_adds(25, 124);
        lemma_pow2_adds(24, 124);
        lemma_pow2_adds(23, 125);
        lemma_pow2_adds(1, 124);
        lemma_pow2_pos(124);
        let p = pow2(124) as int;
        assert(magnitude_units(half) == 0x100_0000 * p) by {
            assert(half / (FRACTION_RANGE as int) == 126);
            assert(half % (FRACTION_RANGE as int) == 0);
        }
        assert(magnitude_units(half - 1) == 0xff_ffff * p) by {
            assert((half - 1) / (FRACTION_RANGE as int) == 125);
            assert((half - 1) % (FRACTION_RANGE as int) == 0x7f_ffff);
        }
        assert(n < 0x7fff_ffc0 <==> 2 * (n * (0x200_0000 * p)) < 0x1_0000_0000 * (0xff_ffff * p
            + 0x100_0000 * p)) by (nonlinear_arith)
            requires
                p > 0,
        ;
        if m < half - 1 {
            lemma_midpoints_increase(HASHES as int, m, half - 1);
        }
        if half < m {
            lemma_midpoints_increase(HASHES as int, half - 1, m - 1);
        }
    }
}

/// A bubble is keyed on its own index: everything about it is hashed from the seed's
/// bits, the index times an odd constant, and a salt for each choice.
pub proof fn law_bubble_is_keyed_on_its_index(seed: Scalar, i: usize, b: Bubble, key: u32)
    requires
        is_bubble(seed, i, b),
        key == (i as int * 0x9e37_79b9) % 0x1_0000_0000,
    ensures
        b.upper_face <==> avalanched(seed.bits ^ key ^ 0xA1) < 0x7fff_ffc0,
        is_swiss_hash(seed.bits ^ key ^ 0xB2, b.radial),
        is_swiss_hash(seed.bits ^ key ^ 0xC3, b.height),
        is_swiss_hash(seed.bits ^ key ^ 0xD4, b.size),
{
    let wide: u64 = i as u64;
    assert(wide as u32 == wide % 0x1_0000_0000) by (bit_vector);
    let low = i as u32;
    assert(low == i as int % 0x1_0000_0000);
    vstd::arithmetic::div_mod::lemma_mul_mod_noop_left(i as int, 0x9e37_79b9, 0x1_0000_0000);
    assert(key == low.wrapping_mul(0x9e37_79b9));
    let base = bubble_base(seed, i);
    assert(base == seed.bits ^ key);
    let face = choose|face: Scalar| #[trigger]
        is_swiss_hash(base ^ 0xA1, face) && b.upper_face == face.below(Scalar { bits: HALF });
    lemma_lower_half(base ^ 0xA1, face);
}

/// The index acts on the seed alone: bubble `i` of one wheel is the first bubble of
/// the wheel whose seed has the index folded in.
pub proof fn law_index_is_folded_into_the_seed(
    seed: Scalar,
    i: usize,
    a: Bubble,
    folded: Scalar,
    b: Bubble,
    key: u32,
)
    requires
        is_bubble(seed, i, a),
        is_bubble(folded, 0, b),
        key == (i as int * 0x9e37_79b9) % 0x1_0000_0000,
        folded.bits == seed.bits ^ key,
    ensures
        a == b,
{
    law_bubble_is_keyed_on_its_index(seed, i, a, key);
    law_bubble_is_keyed_on_its_index(folded, 0, b, 0);
    let bits = folded.bits;
    assert(bits ^ 0 ^ 0xA1 == bits ^ 0xA1 && bits ^ 0 ^ 0xB2 == bits ^ 0xB2 && bits ^ 0 ^ 0xC3
        == bits ^ 0xC3 && bits ^ 0 ^ 0xD4 == bits ^ 0xD4) by (bit_vector);
    law_swiss_hash_is_a_function(bits ^ 0xB2, a.radial, b.radial);
    law_swiss_hash_is_a_function(bits ^ 0xC3, a.height, b.height);
    law_swiss_hash_is_a_function(bits ^ 0xD4, a.size, b.size);
}

} // verus!
