//! The cheese lattice: a cube of wheels, from a whole round at one corner to the
//! thinnest sliver at the opposite one.

use vstd::prelude::*;
use vstd::arithmetic::power2::{lemma_pow2_adds, lemma_pow2_pos, lemma_pow2_unfold, pow2};
use crate::grid::{far, flat, flat_place, lemma_flat_bounds, lemma_flat_carries, law_flat_is_injective, origin};
use crate::rounding::{exponent, is_closest, is_fraction, law_fraction_is_closest, law_product_is_closest, law_quotient_is_closest, is_product, is_quotient, law_numbers_round_to_themselves, law_rounding_keeps_order, lemma_one, lemma_rounds_at_least, lemma_rounds_at_most, lemma_short_fraction, one_in_units, product, quotient, whole, ONE};
use crate::scalar::{law_order_is_order_of_values, lemma_magnitude_units_increase, magnitude_units, Scalar, FRACTION_RANGE};
use crate::scan::in_box;
use crate::wheel::{default_spec, CheeseSpec};

verus! {

/// How many wheels the cube has to a side.
pub const GRID: usize = 5;

/// How many wheels there are.
pub const WHEELS: usize = 125;

/// The bits of 2.8, the distance between the centers of neighbouring wheels.
pub const SPACING: u32 = 0x4033_3333;

/// The bits of 5.6, twice that distance.
pub const TWICE_SPACING: u32 = 0x40b3_3333;

/// How many cells each wheel is meshed with to a side.
pub const GRID_RES: usize = 48;

/// How many wheels at the thin end of the ramp have fewer holes.
pub const THIN_TAIL: usize = 7;

/// What the number of holes is divided by there.
pub const THIN_TAIL_DIVISOR: usize = 2;

/// The bits of 0.6180339887, the one seed that all wheels of the lattice share.
pub const RECIPE_SEED: u32 = 0x3f1e_377a;

/// The bits of `TAU - PI / 125`, the bite that leaves the thinnest sliver.
pub const THINNEST_BITE: u32 = 0x40c8_41f8;

/// The bits of `TAU`.
pub const TAU: u32 = 0x40c9_0fdb;

/// Whether `r` is the bite of the wheel in cell `n`: how far along the cells it
/// is, from zero to one, times the largest bite. The count, the quotient and the
/// product are each rounded once.
pub open spec fn is_bite(n: int, r: Scalar) -> bool {
    exists|count: Scalar, along: Scalar|
        is_fraction(n, 1, count) && #[trigger] is_quotient(count, WHEELS - 1, along)
            && #[trigger] is_product(along, Scalar { bits: THINNEST_BITE }, r)
}

/// How far along the cells a wheel is, and the bite that follows from it.
proof fn lemma_bite_parts(n: int, r: Scalar) -> (parts: (Scalar, Scalar))
    requires
        is_bite(n, r),
    ensures
        is_fraction(n, 1, parts.0),
        is_quotient(parts.0, WHEELS - 1, parts.1),
        is_product(parts.1, Scalar { bits: THINNEST_BITE }, r),
        0 <= n < WHEELS ==> is_fraction(n, WHEELS - 1, parts.1),
{
    let (count, along) = choose|count: Scalar, along: Scalar|
        is_fraction(n, 1, count) && #[trigger] is_quotient(count, WHEELS - 1, along)
            && #[trigger] is_product(along, Scalar { bits: THINNEST_BITE }, r);
    if 0 <= n < WHEELS {
        lemma_count_is_exact(n, count);
    }
    (count, along)
}

/// Counts of at most 24 bits are exact.
proof fn lemma_count_is_exact(n: int, count: Scalar)
    requires
        0 <= n < 0x100_0000,
        is_fraction(n, 1, count),
    ensures
        count.units() == n * one_in_units(),
{
    let exact = if n == 0 {
        0
    } else {
        lemma_short_fraction(n, 0)
    };
    let value = n * one_in_units();
    assert(value == 1 * magnitude_units(exact)) by {
        assert(0 * one_in_units() == 0);
    }
    law_numbers_round_to_themselves(1, exact);
    law_rounding_keeps_order(value, value, 1, count.magnitude(), exact);
    law_rounding_keeps_order(value, value, 1, exact, count.magnitude());
}

/// A power of two among the numbers.
proof fn lemma_power(e: int, k: nat)
    requires
        1 <= e <= 254,
        k == e + 22,
    ensures
        magnitude_units(e * FRACTION_RANGE) == pow2(k),
{
    let m = e * FRACTION_RANGE;
    assert(m / (FRACTION_RANGE as int) == e && m % (FRACTION_RANGE as int) == 0);
    vstd::arithmetic::power2::lemma2_to64();
    lemma_pow2_adds(23, (e - 1) as nat);
}

/// A count has full precision.
proof fn lemma_count_has_full_precision(n: int, count: Scalar)
    requires
        0 < n <= u64::MAX,
        is_fraction(n, 1, count),
    ensures
        127 <= exponent(count) <= 191,
        one_in_units() <= count.units() <= magnitude_units(191 * FRACTION_RANGE),
{
    let one = one_in_units();
    let top = 191 * FRACTION_RANGE;
    lemma_pow2_pos(149);
    lemma_one();
    lemma_power(191, 213);
    lemma_pow2_adds(149, 64);
    vstd::arithmetic::power2::lemma2_to64();
    assert(one <= n * one <= pow2(64) * one) by (nonlinear_arith)
        requires
            1 <= n <= pow2(64),
            one > 0,
    ;
    assert(pow2(64) * one == one * pow2(64)) by (nonlinear_arith);
    lemma_rounds_at_least(n * one, 1, count.magnitude(), ONE as int);
    lemma_rounds_at_most(n * one, 1, count.magnitude(), top);
    lemma_units_keep_order(count, ONE as int);
    lemma_units_keep_order(count, top);
}

/// How far along the cells a count is has full precision.
proof fn lemma_along_has_full_precision(n: int, count: Scalar, along: Scalar)
    requires
        0 < n <= u64::MAX,
        is_fraction(n, 1, count),
        is_quotient(count, WHEELS - 1, along),
    ensures
        120 <= exponent(along) <= 191,
{
    let one = one_in_units();
    let den = WHEELS - 1;
    let top = 191 * FRACTION_RANGE;
    let low = 120 * FRACTION_RANGE;
    lemma_count_has_full_precision(n, count);
    lemma_pow2_pos(149);
    lemma_power(191, 213);
    lemma_power(120, 142);
    lemma_pow2_adds(7, 142);
    vstd::arithmetic::power2::lemma2_to64();
    assert(den == 124);
    assert(count.units() >= den * magnitude_units(low)) by (nonlinear_arith)
        requires
            count.units() >= one,
            one == 128 * magnitude_units(low),
            den == 124,
            one > 0,
    ;
    assert(magnitude_units(top) > 0) by {
        lemma_pow2_pos(213);
    }
    lemma_rounds_at_least(count.units(), den, along.magnitude(), low);
    lemma_rounds_at_most(count.units(), den, along.magnitude(), top);
}

/// The bite of the wheel in cell `n`: a linear ramp from nothing in the first
/// cell to all but a sliver in the last. Behind the last cell it goes on rising.
pub fn bite_for_cell(n: usize) -> (r: Scalar)
    ensures
        is_bite(n as int, r),
{
    let count = whole(n as u64);
    if n == 0 {
        proof {
            let zero = Scalar { bits: 0 };
            let thinnest = Scalar { bits: THINNEST_BITE };
            lemma_count_is_exact(0, count);
            lemma_pow2_pos(149);
            law_numbers_round_to_themselves(WHEELS - 1, 0);
            law_numbers_round_to_themselves(one_in_units(), 0);
            assert(0 * one_in_units() == 0 && 0 * thinnest.units() == 0);
            assert(is_quotient(count, WHEELS - 1, zero));
            assert(is_product(zero, thinnest, zero));
        }
        return Scalar { bits: 0 };
    }
    proof {
        assert forall|along: Scalar| #[trigger]
            is_quotient(count, WHEELS - 1, along) implies 120 <= exponent(along) <= 191 by {
            lemma_along_has_full_precision(n as int, count, along);
        }
        lemma_count_has_full_precision(n as int, count);
    }
    let along = quotient(count, (WHEELS - 1) as u64);
    product(along, Scalar { bits: THINNEST_BITE })
}

/// A cell has one bite.
pub proof fn law_bite_is_a_function(n: int, a: Scalar, b: Scalar)
    requires
        is_bite(n, a),
        is_bite(n, b),
    ensures
        a == b,
{
    let thinnest = Scalar { bits: THINNEST_BITE };
    let (count_a, along_a) = lemma_bite_parts(n, a);
    let (count_b, along_b) = lemma_bite_parts(n, b);
    let den = WHEELS - 1;
    let x = n * one_in_units();
    law_rounding_keeps_order(x, x, 1, count_a.magnitude(), count_b.magnitude());
    law_rounding_keeps_order(x, x, 1, count_b.magnitude(), count_a.magnitude());
    let c = count_a.units();
    law_rounding_keeps_order(c, c, den, along_a.magnitude(), along_b.magnitude());
    law_rounding_keeps_order(c, c, den, along_b.magnitude(), along_a.magnitude());
    lemma_pow2_pos(149);
    let y = along_a.units() * thinnest.units();
    law_rounding_keeps_order(y, y, one_in_units(), a.magnitude(), b.magnitude());
    law_rounding_keeps_order(y, y, one_in_units(), b.magnitude(), a.magnitude());
}

/// The ramp starts with a whole round and ends with the thinnest sliver.
pub proof fn law_ramp_ends(n: int, r: Scalar)
    requires
        n == 0 || n == WHEELS - 1,
        is_bite(n, r),
    ensures
        n == 0 ==> r == (Scalar { bits: 0 }),
        n == WHEELS - 1 ==> r == (Scalar { bits: THINNEST_BITE }),
{
    let thinnest = Scalar { bits: THINNEST_BITE };
    let (count, along) = lemma_bite_parts(n, r);
    let den = WHEELS - 1;
    let one = one_in_units();
    lemma_pow2_pos(149);
    lemma_one();
    let exact = if n == 0 {
        0
    } else {
        ONE as int
    };
    assert(n * one == den * magnitude_units(exact)) by {
        if n == 0 {
            assert(magnitude_units(0) == 0);
            assert(0 * one == 0 && den * 0 == 0);
        }
    }
    law_numbers_round_to_themselves(den, exact);
    law_rounding_keeps_order(n * one, n * one, den, along.magnitude(), exact);
    law_rounding_keeps_order(n * one, n * one, den, exact, along.magnitude());
    let end = if n == 0 {
        0
    } else {
        THINNEST_BITE as int
    };
    assert(along.units() == magnitude_units(exact));
    assert(0 * thinnest.units() == 0 && one * 0 == 0);
    law_numbers_round_to_themselves(one, end);
    let value = along.units() * thinnest.units();
    law_rounding_keeps_order(value, value, one, r.magnitude(), end);
    law_rounding_keeps_order(value, value, one, end, r.magnitude());
}

/// The value of the largest bite.
proof fn lemma_thinnest_units()
    ensures
        (Scalar { bits: THINNEST_BITE }).units() == 13124088 * pow2(128),
{
    assert(THINNEST_BITE as int / (FRACTION_RANGE as int) == 129);
    assert(THINNEST_BITE as int % (FRACTION_RANGE as int) == 13124088 - FRACTION_RANGE);
}

/// The ramp rises: a later wheel has the larger bite.
pub proof fn law_ramp_rises(n: int, m: int, a: Scalar, b: Scalar)
    requires
        0 <= n < m < WHEELS,
        is_bite(n, a),
        is_bite(m, b),
    ensures
        a.below(b),
{
    let thinnest = Scalar { bits: THINNEST_BITE };
    let (count_a, along_a) = lemma_bite_parts(n, a);
    let (count_b, along_b) = lemma_bite_parts(m, b);
    let den = WHEELS - 1;
    let one = one_in_units();
    lemma_pow2_pos(149);
    lemma_thinnest_units();
    // Both positions along the ramp lie on either side of a gap between two
    // fractions of 2^16, and both bites on either side of two fractions of 2^13.
    let low = (n * 65536) / 124 + 1;
    let high = (m * 65536) / 124;
    let p = pow2(133) as int;
    vstd::arithmetic::power2::lemma2_to64();
    lemma_pow2_adds(16, 133);
    lemma_pow2_pos(133);
    let low_at = lemma_short_fraction(low, 16);
    let high_at = lemma_short_fraction(high, 16);
    assert(n * one <= den * (low * p)) by (nonlinear_arith)
        requires
            one == 65536 * p,
            den == 124,
            n * 65536 <= 124 * low,
            p > 0,
    ;
    assert(m * one >= den * (high * p)) by (nonlinear_arith)
        requires
            one == 65536 * p,
            den == 124,
            m * 65536 >= 124 * high,
            p > 0,
    ;
    lemma_rounds_at_most(n * one, den, along_a.magnitude(), low_at);
    lemma_rounds_at_least(m * one, den, along_b.magnitude(), high_at);
    lemma_units_keep_order(along_a, low_at);
    lemma_units_keep_order(along_b, high_at);
    let t = thinnest.units();
    let u = pow2(128) as int;
    let v = pow2(136) as int;
    lemma_pow2_pos(128);
    lemma_pow2_pos(136);
    lemma_pow2_adds(133, 128);
    lemma_pow2_adds(149, 136);
    lemma_pow2_adds(24, 261);
    let gap = (low * 13124088) / 0x100_0000 + 1;
    let gap_low = lemma_short_fraction(gap, 13);
    let gap_high = lemma_short_fraction(gap + 1, 13);
    let w = pow2(261) as int;
    lemma_pow2_pos(261);
    assert(p * u == w && one * v == 0x100_0000 * w);
    let x = along_a.units();
    let y = along_b.units();
    assert(x * t <= one * (gap * v)) by (nonlinear_arith)
        requires
            0 <= x <= low * p,
            t == 13124088 * u,
            p * u == w,
            one * v == 0x100_0000 * w,
            low * 13124088 <= gap * 0x100_0000,
            w > 0,
            u > 0,
    ;
    assert(y * t >= one * ((gap + 1) * v)) by (nonlinear_arith)
        requires
            y >= high * p,
            t == 13124088 * u,
            p * u == w,
            one * v == 0x100_0000 * w,
            high * 13124088 >= (gap + 1) * 0x100_0000,
            w > 0,
            u > 0,
    ;
    lemma_rounds_at_most(x * t, one, a.magnitude(), gap_low);
    lemma_rounds_at_least(y * t, one, b.magnitude(), gap_high);
    if gap_high <= gap_low {
        assert((gap + 1) * v > gap * v) by (nonlinear_arith)
            requires
                v > 0,
        ;
        if gap_high < gap_low {
            lemma_magnitude_units_increase(gap_high, gap_low);
        }
        assert(false);
    }
}

/// A positive number has no more units than a magnitude that is no less.
proof fn lemma_units_keep_order(a: Scalar, magnitude: int)
    requires
        !a.sign_set(),
        0 <= magnitude,
    ensures
        0 <= a.units(),
        a.magnitude() <= magnitude ==> a.units() <= magnitude_units(magnitude),
        a.magnitude() >= magnitude ==> a.units() >= magnitude_units(magnitude),
{
    if a.magnitude() < magnitude {
        lemma_magnitude_units_increase(a.magnitude(), magnitude);
    } else if magnitude < a.magnitude() {
        lemma_magnitude_units_increase(magnitude, a.magnitude());
    }
    if a.magnitude() > 0 {
        lemma_magnitude_units_increase(0, a.magnitude());
    }
}

/// Every bite of the ramp is in the range that a wheel allows: from zero up to
/// but not including a full turn.
pub proof fn law_bites_are_in_range(n: int, r: Scalar)
    requires
        0 <= n < WHEELS,
        is_bite(n, r),
    ensures
        !r.negative(),
        r.below(Scalar { bits: TAU }),
{
    let last = WHEELS - 1;
    let one = one_in_units();
    if n == last {
        law_ramp_ends(last, r);
    } else {
        let thinnest = Scalar { bits: THINNEST_BITE };
        let along = Scalar { bits: ONE };
        let count = Scalar { bits: lemma_short_fraction(last, 0) as u32 };
        lemma_one();
        lemma_pow2_pos(149);
        law_numbers_round_to_themselves(1, count.magnitude());
        law_numbers_round_to_themselves(last, ONE as int);
        law_numbers_round_to_themselves(one, THINNEST_BITE as int);
        assert(is_fraction(last, 1, count));
        assert(is_quotient(count, last, along));
        assert(is_product(along, thinnest, thinnest));
        assert(is_bite(last, thinnest));
        law_ramp_rises(n, last, r, thinnest);
    }
}

/// What it takes to make one wheel of the lattice.
#[derive(Clone, Copy, Debug)]
pub struct Recipe {
    /// The number of the wheel's cell.
    pub cell: usize,
    pub spec: CheeseSpec,
    /// Where the center of the wheel goes.
    pub position: (Scalar, Scalar, Scalar),
}

/// How many holes the wheel in cell `n` has.
pub open spec fn hole_budget(n: int) -> int {
    let full = default_spec().hole_count as int;
    if n >= WHEELS - THIN_TAIL {
        full / THIN_TAIL_DIVISOR as int
    } else {
        full
    }
}

/// The wheel in cell `n` with a given bite: a default wheel but for the bite, the
/// common seed, and the number of holes at the thin end.
pub open spec fn cell_spec(n: int, bite: Scalar) -> CheeseSpec {
    CheeseSpec {
        wedge_bite: bite,
        hole_seed: Scalar { bits: RECIPE_SEED },
        hole_count: hole_budget(n) as usize,
        ..default_spec()
    }
}

/// Whether the wheels with this index along an axis have their centers at `r`: the
/// index's distance from the middle of the cube, `x - (GRID - 1) / 2`, times the
/// spacing, with nothing lost to rounding. In the middle it is the positive zero.
pub open spec fn is_coordinate(x: int, r: Scalar) -> bool {
    &&& !r.not_a_number()
    &&& 2 * r.units() == (2 * x - (GRID - 1)) * (Scalar { bits: SPACING }).units()
    &&& r.units() == 0 ==> !r.sign_set()
}

/// A place along an axis has one coordinate.
pub proof fn law_coordinate_is_a_function(x: int, a: Scalar, b: Scalar)
    requires
        is_coordinate(x, a),
        is_coordinate(x, b),
    ensures
        a == b,
{
    law_order_is_order_of_values(a, b);
    law_order_is_order_of_values(a, Scalar { bits: 0 });
}

/// Twice the spacing is exact.
proof fn lemma_twice_the_spacing()
    ensures
        (Scalar { bits: TWICE_SPACING }).units() == 2 * (Scalar { bits: SPACING }).units(),
        (Scalar { bits: SPACING }).units() > 0,
{
    let once = SPACING as int;
    let twice = TWICE_SPACING as int;
    assert(once / (FRACTION_RANGE as int) == 128 && twice / (FRACTION_RANGE as int) == 129);
    assert(once % (FRACTION_RANGE as int) == twice % (FRACTION_RANGE as int));
    lemma_pow2_unfold(128);
    let f = FRACTION_RANGE + once % (FRACTION_RANGE as int);
    let p = pow2(127) as int;
    assert(f * (2 * p) == 2 * (f * p)) by (nonlinear_arith);
    lemma_magnitude_units_increase(0, once);
}

/// Where the wheels with this index along an axis have their centers.
pub fn lattice_coordinate(x: usize) -> (r: Scalar)
    requires
        x < GRID,
    ensures
        is_coordinate(x as int, r),
{
    proof {
        lemma_twice_the_spacing();
        let u = (Scalar { bits: SPACING }).units();
        let m = 2 * x - (GRID - 1);
        assert(m == -4 || m == -2 || m == 0 || m == 2 || m == 4);
        assert((-4) * u == -(4 * u) && (-2) * u == -(2 * u));
    }
    if x == 0 {
        Scalar { bits: TWICE_SPACING }.neg()
    } else if x == 1 {
        Scalar { bits: SPACING }.neg()
    } else if x == 2 {
        Scalar { bits: 0 }
    } else if x == 3 {
        Scalar { bits: SPACING }
    } else {
        Scalar { bits: TWICE_SPACING }
    }
}

/// Whether a recipe is that of the cell at `(x, y, z)`.
pub open spec fn is_recipe(x: int, y: int, z: int, r: Recipe) -> bool {
    let n = flat(GRID as int, x, y, z);
    &&& r.cell == n
    &&& is_bite(n, r.spec.wedge_bite)
    &&& r.spec == cell_spec(n, r.spec.wedge_bite)
    &&& is_coordinate(x, r.position.0)
    &&& is_coordinate(y, r.position.1)
    &&& is_coordinate(z, r.position.2)
}

/// The recipe for the wheel at `(x, y, z)`.
pub fn recipe(x: usize, y: usize, z: usize) -> (r: Recipe)
    requires
        x < GRID,
        y < GRID,
        z < GRID,
    ensures
        is_recipe(x as int, y as int, z as int, r),
{
    let n = flat_place(GRID, x, y, z);
    let mut spec = CheeseSpec {
        wedge_bite: bite_for_cell(n),
        hole_seed: Scalar { bits: RECIPE_SEED },
        ..CheeseSpec::default()
    };
    if n >= WHEELS - THIN_TAIL {
        spec.hole_count = spec.hole_count / THIN_TAIL_DIVISOR;
    }
    Recipe {
        cell: n,
        spec,
        position: (lattice_coordinate(x), lattice_coordinate(y), lattice_coordinate(z)),
    }
}

/// What is known of the recipes while the cube is walked.
spec fn partly_laid_out(recipes: Seq<Recipe>) -> bool {
    forall|x: int, y: int, z: int|
        in_box(origin(), far(GRID as int), x, y, z) && #[trigger] flat(GRID as int, x, y, z)
            < recipes.len() ==> is_recipe(
            x,
            y,
            z,
            recipes[flat(GRID as int, x, y, z)],
        )
}

/// Lays out the recipes of all wheels, in the order of their cell numbers.
pub fn mise_en_place() -> (recipes: Vec<Recipe>)
    ensures
        recipes.len() == WHEELS,
        forall|n: int| 0 <= n < WHEELS ==> (#[trigger] recipes[n]).cell == n,
        forall|x: int, y: int, z: int|
            in_box(origin(), far(GRID as int), x, y, z) ==> is_recipe(
                x,
                y,
                z,
                recipes[#[trigger] flat(GRID as int, x, y, z)],
            ),
{
    let mut recipes: Vec<Recipe> = Vec::new();
    let mut x: usize = 0;
    while x < GRID
        invariant
            x <= GRID,
            recipes.len() == flat(GRID as int, x as int, 0, 0),
            forall|n: int| 0 <= n < recipes.len() ==> (#[trigger] recipes[n]).cell == n,
            partly_laid_out(recipes@),
        decreases GRID - x,
    {
        let mut y: usize = 0;
        while y < GRID
            invariant
                x < GRID,
                y <= GRID,
                recipes.len() == flat(GRID as int, x as int, y as int, 0),
                forall|n: int| 0 <= n < recipes.len() ==> (#[trigger] recipes[n]).cell == n,
                partly_laid_out(recipes@),
            decreases GRID - y,
        {
            let mut z: usize = 0;
            while z < GRID
                invariant
                    x < GRID,
                    y < GRID,
                    z <= GRID,
                    recipes.len() == flat(GRID as int, x as int, y as int, z as int),
                    forall|n: int| 0 <= n < recipes.len() ==> (#[trigger] recipes[n]).cell == n,
                    partly_laid_out(recipes@),
                decreases GRID - z,
            {
                let ghost before = recipes@;
                recipes.push(recipe(x, y, z));
                proof {
                    assert forall|a: int, b: int, c: int|
                        in_box(origin(), far(GRID as int), a, b, c) && #[trigger] flat(
                            GRID as int,
                            a,
                            b,
                            c,
                        ) < recipes.len() implies is_recipe(
                        a,
                        b,
                        c,
                        recipes@[flat(GRID as int, a, b, c)],
                    ) by {
                        let at = flat(GRID as int, a, b, c);
                        lemma_flat_bounds(GRID as int, a, b, c);
                        if at == before.len() {
                            law_flat_is_injective(
                                GRID as int,
                                (a, b, c),
                                (x as int, y as int, z as int),
                            );
                        } else {
                            assert(recipes@[at] == before[at]);
                        }
                    }
                }
                z = z + 1;
            }
            proof {
                lemma_flat_carries(GRID as int, x as int, y as int);
            }
            y = y + 1;
        }
        proof {
            lemma_flat_carries(GRID as int, x as int, 0);
        }
        x = x + 1;
    }
    proof {
        assert forall|x: int, y: int, z: int|
            in_box(origin(), far(GRID as int), x, y, z) implies is_recipe(
            x,
            y,
            z,
            recipes@[#[trigger] flat(GRID as int, x, y, z)],
        ) by {
            lemma_flat_bounds(GRID as int, x, y, z);
        }
    }
    recipes
}

/// Only the thin end of the ramp has fewer holes, and the holes it has are the
/// first of those that the other wheels have.
pub proof fn law_only_the_tail_is_thinned(n: int, bite: Scalar, m: int, other: Scalar)
    requires
        0 <= n < WHEELS,
        0 <= m < WHEELS,
    ensures
        n < WHEELS - THIN_TAIL ==> cell_spec(n, bite).hole_count == default_spec().hole_count,
        n >= WHEELS - THIN_TAIL ==> cell_spec(n, bite).hole_count == default_spec().hole_count
            / THIN_TAIL_DIVISOR,
        cell_spec(n, bite).hole_count <= default_spec().hole_count,
        cell_spec(n, bite).hole_seed == cell_spec(m, other).hole_seed,
        cell_spec(n, bite).hole_radius == cell_spec(m, other).hole_radius,
{
}

/// The smallest whole number that is not below the quotient.
pub open spec fn quotient_up(a: int, b: int) -> int {
    (a + b - 1) / b
}

/// How many jobs to hand to each worker.
pub fn chunk_size(jobs: usize, workers: usize) -> (r: usize)
    requires
        workers > 0,
    ensures
        r == vstd::math::max(quotient_up(jobs as int, workers as int), 1),
        r >= 1,
        r * workers >= jobs,
        r == 1 || (r - 1) * workers < jobs,
{
    let whole: usize = jobs / workers;
    let left: usize = jobs % workers;
    proof {
        vstd::arithmetic::div_mod::lemma_fundamental_div_mod(jobs as int, workers as int);
        lemma_quotient_up(jobs as int, workers as int, whole as int, left as int);
        assert(left > 0 ==> whole < jobs) by (nonlinear_arith)
            requires
                jobs == workers * whole + left,
                left < workers,
        ;
        let (w, q) = (workers as int, whole as int);
        assert((q + 1) * w == w * q + w && q * w == w * q && (q - 1) * w == w * q - w && 0 * w == 0
            && 1 * w == w) by (nonlinear_arith);
    }
    let size: usize = if left > 0 {
        whole + 1
    } else {
        whole
    };
    if size == 0 {
        1
    } else {
        size
    }
}

proof fn lemma_quotient_up(a: int, b: int, q: int, r: int)
    requires
        b > 0,
        a == b * q + r,
        0 <= r < b,
    ensures
        quotient_up(a, b) == if r > 0 {
            q + 1
        } else {
            q
        },
{
    let n = if r > 0 {
        q + 1
    } else {
        q
    };
    let rest = a + b - 1 - b * n;
    assert(b * (q + 1) == b * q + b) by (nonlinear_arith);
    assert(0 <= rest < b);
    vstd::arithmetic::div_mod::lemma_fundamental_div_mod_converse(a + b - 1, b, n, rest);
}

/// Chunking by workers never makes more chunks than there are workers.
pub proof fn law_no_more_chunks_than_workers(jobs: int, workers: int)
    requires
        jobs > 0,
        workers > 0,
    ensures
        quotient_up(jobs, workers) >= 1,
        1 <= quotient_up(jobs, quotient_up(jobs, workers)) <= workers,
{
    vstd::arithmetic::div_mod::lemma_fundamental_div_mod(jobs, workers);
    vstd::arithmetic::div_mod::lemma_mod_bound(jobs, workers);
    let q = jobs / workers;
    let r = jobs % workers;
    lemma_quotient_up(jobs, workers, q, r);
    let size = quotient_up(jobs, workers);
    assert(q >= 0) by (nonlinear_arith)
        requires
            jobs == workers * q + r,
            r < workers,
            jobs > 0,
            workers > 0,
    ;
    assert(size >= 1) by (nonlinear_arith)
        requires
            size == if r > 0 {
                q + 1
            } else {
                q
            },
            q >= 0,
            jobs == workers * q + r,
            jobs > 0,
    ;
    assert(jobs <= workers * size) by (nonlinear_arith)
        requires
            size == if r > 0 {
                q + 1
            } else {
                q
            },
            jobs == workers * q + r,
            r < workers,
    ;
    vstd::arithmetic::div_mod::lemma_fundamental_div_mod(jobs, size);
    vstd::arithmetic::div_mod::lemma_mod_bound(jobs, size);
    let c = jobs / size;
    let d = jobs % size;
    lemma_quotient_up(jobs, size, c, d);
    assert(c + (if d > 0 {
        1int
    } else {
        0int
    }) <= workers) by (nonlinear_arith)
        requires
            jobs == size * c + d,
            0 <= d < size,
            jobs <= workers * size,
            size >= 1,
    ;
    assert(c + (if d > 0 {
        1int
    } else {
        0int
    }) >= 1) by (nonlinear_arith)
        requires
            jobs == size * c + d,
            0 <= d < size,
            jobs > 0,
            size >= 1,
    ;
}

/// The ramp is linear but for rounding: the count of the cell, that count over 124, and
/// the result times the largest bite are each the closest number to their exact value.
pub proof fn law_ramp_is_linear(n: int, r: Scalar)
    requires
        is_bite(n, r),
    ensures
        exists|count: Scalar, along: Scalar|
            {
                &&& is_closest(n * pow2(149), 1, count)
                &&& #[trigger] is_closest(count.units(), 124, along)
                &&& #[trigger] is_closest(
                    along.units() * (Scalar { bits: 0x40c8_41f8 }).units(),
                    pow2(149) as int,
                    r,
                )
            },
{
    let (count, along) = lemma_bite_parts(n, r);
    law_fraction_is_closest(n, 1, count);
    law_quotient_is_closest(count, 124, along);
    law_product_is_closest(along, Scalar { bits: THINNEST_BITE }, r);
}

/// A recipe in plain numbers: cells are numbered with the last coordinate running
/// fastest, the last seven of the 125 have seven holes and all others fourteen, and
/// only bite, seed and holes differ from a default wheel.
pub proof fn law_recipes_in_plain_numbers(x: int, y: int, z: int, r: Recipe)
    requires
        is_recipe(x, y, z, r),
        0 <= x < 5,
        0 <= y < 5,
        0 <= z < 5,
    ensures
        r.cell == 25 * x + 5 * y + z,
        is_bite(25 * x + 5 * y + z, r.spec.wedge_bite),
        r.spec.hole_count == (if r.cell >= 118 {
            7int
        } else {
            14int
        }),
        r.spec.hole_seed.bits == 0x3f1e_377a,
        r.spec.wheel_radius.bits == 0x3f80_0000,
        r.spec.wheel_height.bits == 0x3f4c_cccd,
        r.spec.hole_radius.0.bits == 0x3d75_c28f,
        r.spec.hole_radius.1.bits == 0x3e23_d70a,
        2 * r.position.0.units() == (2 * x - 4) * (Scalar { bits: 0x4033_3333 }).units(),
        2 * r.position.1.units() == (2 * y - 4) * (Scalar { bits: 0x4033_3333 }).units(),
        2 * r.position.2.units() == (2 * z - 4) * (Scalar { bits: 0x4033_3333 }).units(),
{
}

} // verus!
