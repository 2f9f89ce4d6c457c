//! One wheel: its measurements, and the field that says how deep inside the
//! cheese a point lies. The field is negative inside and positive outside, and
//! every subtraction of one solid from another is a maximum on the field.

use vstd::prelude::*;
use crate::scalar::{law_extremes_are_by_value, law_order_is_order_of_values, Scalar};
use crate::scatter::{bubble, is_bubble, law_same_seed_same_bubbles, Bubble};

verus! {

/// The bits of 1.0.
pub const DEFAULT_WHEEL_RADIUS: u32 = 0x3f80_0000;

/// The bits of 0.8.
pub const DEFAULT_WHEEL_HEIGHT: u32 = 0x3f4c_cccd;

/// The bits of pi: a half-disk is bitten off.
pub const DEFAULT_BITE: u32 = 0x4049_0fdb;

pub const DEFAULT_HOLE_COUNT: usize = 14;

/// The bits of 0.06.
pub const DEFAULT_SMALLEST_HOLE: u32 = 0x3d75_c28f;

/// The bits of 0.16.
pub const DEFAULT_LARGEST_HOLE: u32 = 0x3e23_d70a;

/// The bits of 0.0001. A bite no larger than this leaves the wheel round.
pub const NO_BITE: u32 = 0x38d1_b717;

/// Everything that makes one wheel distinct.
#[derive(Clone, Copy, Debug)]
pub struct CheeseSpec {
    pub wheel_radius: Scalar,
    pub wheel_height: Scalar,
    /// The angle of the removed slice in radians, in `[0, TAU)`. The slice is
    /// symmetric about the `z = 0` plane and opens toward `+x`.
    pub wedge_bite: Scalar,
    pub hole_count: usize,
    /// The smallest and the largest bubble radius, both included.
    pub hole_radius: (Scalar, Scalar),
    /// What decides where the bubbles land. The same seed gives the same bubbles.
    pub hole_seed: Scalar,
}

impl Default for CheeseSpec {
    /// A tidy half-disk whose bite is also its seed.
    fn default() -> (spec: CheeseSpec)
        ensures
            spec == default_spec(),
    {
        let bite = Scalar { bits: DEFAULT_BITE };
        CheeseSpec {
            wheel_radius: Scalar { bits: DEFAULT_WHEEL_RADIUS },
            wheel_height: Scalar { bits: DEFAULT_WHEEL_HEIGHT },
            wedge_bite: bite,
            hole_count: DEFAULT_HOLE_COUNT,
            hole_radius: (
                Scalar { bits: DEFAULT_SMALLEST_HOLE },
                Scalar { bits: DEFAULT_LARGEST_HOLE },
            ),
            hole_seed: bite,
        }
    }
}

/// The wheel that a caller starts from.
pub open spec fn default_spec() -> CheeseSpec {
    CheeseSpec {
        wheel_radius: Scalar { bits: DEFAULT_WHEEL_RADIUS },
        wheel_height: Scalar { bits: DEFAULT_WHEEL_HEIGHT },
        wedge_bite: Scalar { bits: DEFAULT_BITE },
        hole_count: DEFAULT_HOLE_COUNT,
        hole_radius: (
            Scalar { bits: DEFAULT_SMALLEST_HOLE },
            Scalar { bits: DEFAULT_LARGEST_HOLE },
        ),
        hole_seed: Scalar { bits: DEFAULT_BITE },
    }
}

/// What measures the solids of one wheel at points of some space.
///
/// The rules that combine the measurements are the same whatever the points are
/// and however distances between them are computed.
pub struct Measures<O, J, W, S> {
    /// How far a point lies beyond the rind and beyond the nearer cap of the whole
    /// cylinder; negative where it lies within.
    pub overshoot: O,
    /// The distance to the cylinder from its three terms.
    pub join: J,
    /// The distance to the removed slice.
    pub wedge: W,
    /// The distance to a bubble.
    pub sphere: S,
}

/// The three terms of the distance to a capped cylinder. The distance is the
/// interior term plus the length of the overflow.
#[derive(Clone, Copy, Debug, PartialEq, Eq, Structural)]
pub struct CapTerms {
    /// How far inside, never positive.
    pub interior: Scalar,
    /// How far beyond the rind, never negative.
    pub radial_overflow: Scalar,
    /// How far beyond the nearer cap, never negative.
    pub axial_overflow: Scalar,
}

pub open spec fn zero() -> Scalar {
    Scalar { bits: 0 }
}

/// The terms for a point that lies `radial` beyond the rind and `axial` beyond
/// the nearer cap.
pub open spec fn cap_terms(radial: Scalar, axial: Scalar) -> CapTerms {
    CapTerms {
        interior: radial.larger(axial).smaller(zero()),
        radial_overflow: radial.larger(zero()),
        axial_overflow: axial.larger(zero()),
    }
}

/// Splits the distance to a capped cylinder into the interior term and the two
/// overflows.
pub fn split_overshoot(radial: Scalar, axial: Scalar) -> (terms: CapTerms)
    ensures
        terms == cap_terms(radial, axial),
{
    let zero = Scalar { bits: 0 };
    CapTerms {
        interior: radial.max(axial).min(zero),
        radial_overflow: radial.max(zero),
        axial_overflow: axial.max(zero),
    }
}

/// Whether `d` may be measured as the distance from `p` to the whole cylinder.
pub open spec fn is_cylinder<P, O: Fn(P) -> (Scalar, Scalar), J: Fn(CapTerms) -> Scalar, W, S>(
    measures: &Measures<O, J, W, S>,
    p: P,
    d: Scalar,
) -> bool {
    exists|radial: Scalar, axial: Scalar| #[trigger]
        call_ensures(measures.overshoot, (p,), (radial, axial)) && call_ensures(
            measures.join,
            (cap_terms(radial, axial),),
            d,
        )
}

/// The distance from a point to the whole cylinder.
pub fn sd_capped_cylinder<P, O: Fn(P) -> (Scalar, Scalar), J: Fn(CapTerms) -> Scalar, W, S>(
    measures: &Measures<O, J, W, S>,
    p: P,
) -> (d: Scalar)
    requires
        call_requires(measures.overshoot, (p,)),
        forall|terms: CapTerms| call_requires(measures.join, (terms,)),
    ensures
        is_cylinder(measures, p, d),
{
    let (radial, axial) = (measures.overshoot)(p);
    (measures.join)(split_overshoot(radial, axial))
}

/// The field of one solid with another subtracted from it.
pub open spec fn carved(solid: Scalar, tool: Scalar) -> Scalar {
    solid.larger(tool.opposite())
}

/// Subtracts one solid from another, given the distances to both.
pub fn subtract(solid: Scalar, tool: Scalar) -> (r: Scalar)
    ensures
        r == carved(solid, tool),
{
    solid.max(tool.neg())
}

/// The field of a solid with every one of the spheres subtracted from it.
pub open spec fn hollowed(solid: Scalar, spheres: Seq<Scalar>) -> Scalar
    decreases spheres.len(),
{
    if spheres.len() == 0 {
        solid
    } else {
        carved(hollowed(solid, spheres.drop_last()), spheres.last())
    }
}

impl CheeseSpec {
    /// Whether a slice is cut out at all. A bite of zero is not cut: the cut
    /// would leave a slit without width.
    pub open spec fn bitten(self) -> bool {
        Scalar { bits: NO_BITE }.below(self.wedge_bite)
    }

    /// Whether a slice is cut out at all.
    pub fn has_bite(&self) -> (r: bool)
        ensures
            r == self.bitten(),
    {
        Scalar { bits: NO_BITE }.lt(self.wedge_bite)
    }
}

/// The field of a wheel at a point, given the point's distances to the whole
/// cylinder, to the removed wedge and to each bubble: the cylinder, minus the
/// wedge where there is one, minus the bubbles.
pub open spec fn field_value(
    spec: CheeseSpec,
    cylinder: Scalar,
    wedge: Scalar,
    spheres: Seq<Scalar>,
) -> Scalar {
    if spec.bitten() {
        hollowed(carved(cylinder, wedge), spheres)
    } else {
        hollowed(cylinder, spheres)
    }
}

/// Whether `d` may be measured as the distance from `p` to bubble `i`.
pub open spec fn is_sphere<P, S: Fn(P, Bubble) -> Scalar>(
    seed: Scalar,
    sphere: S,
    p: P,
    i: usize,
    d: Scalar,
) -> bool {
    exists|b: Bubble| #[trigger] is_bubble(seed, i, b) && call_ensures(sphere, (p, b), d)
}

/// Whether these are distances that may be measured from `p` to the solids of a
/// wheel: to the cylinder, to the slice if there is one, and to each bubble.
pub open spec fn measured<
    P,
    O: Fn(P) -> (Scalar, Scalar),
    J: Fn(CapTerms) -> Scalar,
    W: Fn(P) -> Scalar,
    S: Fn(P, Bubble) -> Scalar,
>(
    spec: CheeseSpec,
    measures: &Measures<O, J, W, S>,
    p: P,
    cylinder: Scalar,
    wedge: Scalar,
    spheres: Seq<Scalar>,
) -> bool {
    &&& is_cylinder(measures, p, cylinder)
    &&& spec.bitten() ==> call_ensures(measures.wedge, (p,), wedge)
    &&& spheres.len() == spec.hole_count
    &&& forall|i: usize|
        i < spec.hole_count ==> is_sphere(
            spec.hole_seed,
            measures.sphere,
            p,
            i,
            #[trigger] spheres[i as int],
        )
}

/// Whether `r` may be the field of a wheel at `p`: the field value for distances
/// that may be measured there.
pub open spec fn is_field<
    P,
    O: Fn(P) -> (Scalar, Scalar),
    J: Fn(CapTerms) -> Scalar,
    W: Fn(P) -> Scalar,
    S: Fn(P, Bubble) -> Scalar,
>(spec: CheeseSpec, measures: &Measures<O, J, W, S>, p: P, r: Scalar) -> bool {
    exists|cylinder: Scalar, wedge: Scalar, spheres: Seq<Scalar>|
        measured(spec, measures, p, cylinder, wedge, spheres) && r == #[trigger] field_value(
            spec,
            cylinder,
            wedge,
            spheres,
        )
}

/// Whether the measures can be taken at a point.
pub open spec fn measurable<
    P,
    O: Fn(P) -> (Scalar, Scalar),
    J: Fn(CapTerms) -> Scalar,
    W: Fn(P) -> Scalar,
    S: Fn(P, Bubble) -> Scalar,
>(spec: CheeseSpec, measures: &Measures<O, J, W, S>, p: P) -> bool {
    &&& call_requires(measures.overshoot, (p,))
    &&& forall|terms: CapTerms| call_requires(measures.join, (terms,))
    &&& spec.bitten() ==> call_requires(measures.wedge, (p,))
    &&& forall|b: Bubble| call_requires(measures.sphere, (p, b))
}

/// The field of a wheel at a point: the cylinder, minus the wedge where there is
/// one, minus the bubbles.
pub fn cheese_field<
    P: Copy,
    O: Fn(P) -> (Scalar, Scalar),
    J: Fn(CapTerms) -> Scalar,
    W: Fn(P) -> Scalar,
    S: Fn(P, Bubble) -> Scalar,
>(spec: &CheeseSpec, measures: &Measures<O, J, W, S>, p: P) -> (r: Scalar)
    requires
        measurable(*spec, measures, p),
    ensures
        is_field(*spec, measures, p, r),
        definite(measures) ==> is_largest(*spec, measures, p, r),
{
    let cylinder = sd_capped_cylinder(measures, p);
    let mut d = cylinder;
    let ghost mut cut = zero();
    if spec.has_bite() {
        let sd_bite = (measures.wedge)(p);
        d = subtract(d, sd_bite);
        proof {
            cut = sd_bite;
        }
    }
    let ghost solid = d;
    let ghost mut spheres: Seq<Scalar> = Seq::empty();
    for i in 0..spec.hole_count
        invariant
            measurable(*spec, measures, p),
            spheres.len() == i,
            d == hollowed(solid, spheres),
            forall|n: usize|
                n < i ==> is_sphere(
                    spec.hole_seed,
                    measures.sphere,
                    p,
                    n,
                    #[trigger] spheres[n as int],
                ),
    {
        let hole = bubble(spec, i);
        let sd_sphere = (measures.sphere)(p, hole);
        d = subtract(d, sd_sphere);
        proof {
            assert(is_sphere(spec.hole_seed, measures.sphere, p, i, sd_sphere));
            let grown = spheres.push(sd_sphere);
            assert(grown.drop_last() =~= spheres);
            spheres = grown;
        }
    }
    assert(measured(*spec, measures, p, cylinder, cut, spheres));
    assert(d == field_value(*spec, cylinder, cut, spheres));
    proof {
        if definite(measures) {
            law_field_is_the_largest_of_its_own_solids(*spec, measures, p, d);
        }
    }
    d
}

/// Whether the measures always measure the same at the same point.
pub open spec fn definite<
    P,
    O: Fn(P) -> (Scalar, Scalar),
    J: Fn(CapTerms) -> Scalar,
    W: Fn(P) -> Scalar,
    S: Fn(P, Bubble) -> Scalar,
>(measures: &Measures<O, J, W, S>) -> bool {
    &&& forall|p: P, x: (Scalar, Scalar), y: (Scalar, Scalar)| #[trigger]
        call_ensures(measures.overshoot, (p,), x) && #[trigger] call_ensures(
            measures.overshoot,
            (p,),
            y,
        ) ==> x == y
    &&& forall|terms: CapTerms, x: Scalar, y: Scalar| #[trigger]
        call_ensures(measures.join, (terms,), x) && #[trigger] call_ensures(
            measures.join,
            (terms,),
            y,
        ) ==> x == y
    &&& forall|p: P, x: Scalar, y: Scalar| #[trigger]
        call_ensures(measures.wedge, (p,), x) && #[trigger] call_ensures(measures.wedge, (p,), y)
            ==> x == y
    &&& forall|p: P, b: Bubble, x: Scalar, y: Scalar| #[trigger]
        call_ensures(measures.sphere, (p, b), x) && #[trigger] call_ensures(
            measures.sphere,
            (p, b),
            y,
        ) ==> x == y
}

/// A wheel has one field: where the measures always measure the same, the field at
/// a point is the same to the last bit whenever it is asked for.
pub proof fn law_field_is_a_function<
    P,
    O: Fn(P) -> (Scalar, Scalar),
    J: Fn(CapTerms) -> Scalar,
    W: Fn(P) -> Scalar,
    S: Fn(P, Bubble) -> Scalar,
>(spec: CheeseSpec, measures: &Measures<O, J, W, S>, p: P, a: Scalar, b: Scalar)
    requires
        definite(measures),
        is_field(spec, measures, p, a),
        is_field(spec, measures, p, b),
    ensures
        a == b,
{
    let (cylinder_a, wedge_a, spheres_a) = choose|
        cylinder: Scalar,
        wedge: Scalar,
        spheres: Seq<Scalar>,
    |
        measured(spec, measures, p, cylinder, wedge, spheres) && a == #[trigger] field_value(
            spec,
            cylinder,
            wedge,
            spheres,
        );
    let (cylinder_b, wedge_b, spheres_b) = choose|
        cylinder: Scalar,
        wedge: Scalar,
        spheres: Seq<Scalar>,
    |
        measured(spec, measures, p, cylinder, wedge, spheres) && b == #[trigger] field_value(
            spec,
            cylinder,
            wedge,
            spheres,
        );
    assert(is_cylinder(measures, p, cylinder_a) && is_cylinder(measures, p, cylinder_b));
    assert forall|i: int| 0 <= i < spheres_a.len() implies spheres_a[i] == spheres_b[i] by {
        let n = i as usize;
        assert(is_sphere(spec.hole_seed, measures.sphere, p, n, spheres_a[n as int]));
        assert(is_sphere(spec.hole_seed, measures.sphere, p, n, spheres_b[n as int]));
        let hole_a = choose|hole: Bubble| #[trigger]
            is_bubble(spec.hole_seed, n, hole) && call_ensures(
                measures.sphere,
                (p, hole),
                spheres_a[i],
            );
        let hole_b = choose|hole: Bubble| #[trigger]
            is_bubble(spec.hole_seed, n, hole) && call_ensures(
                measures.sphere,
                (p, hole),
                spheres_b[i],
            );
        law_same_seed_same_bubbles(spec, spec, n, hole_a, hole_b);
    }
    assert(spheres_a =~= spheres_b);
}

/// Whether every one of these distances is a number.
pub open spec fn all_numbers(distances: Seq<Scalar>) -> bool {
    forall|i: int| 0 <= i < distances.len() ==> !(#[trigger] distances[i]).not_a_number()
}

/// Hollowing a solid takes the maximum over the solid and the spheres turned
/// inside out: it is no less than any of them, and it is one of them.
proof fn lemma_hollowed(solid: Scalar, spheres: Seq<Scalar>)
    requires
        !solid.not_a_number(),
        all_numbers(spheres),
    ensures
        !hollowed(solid, spheres).not_a_number(),
        hollowed(solid, spheres).place() >= solid.place(),
        forall|i: int|
            0 <= i < spheres.len() ==> hollowed(solid, spheres).place() >= -(
            #[trigger] spheres[i]).place(),
        hollowed(solid, spheres).place() == solid.place() || exists|i: int|
            0 <= i < spheres.len() && hollowed(solid, spheres).place() == -(
            #[trigger] spheres[i]).place(),
    decreases spheres.len(),
{
    if spheres.len() > 0 {
        let fewer = spheres.drop_last();
        assert forall|i: int| 0 <= i < fewer.len() implies !(
        #[trigger] fewer[i]).not_a_number() by {
            assert(fewer[i] == spheres[i]);
        }
        lemma_hollowed(solid, fewer);
        let last = spheres.last();
        assert(last == spheres[spheres.len() - 1]);
        crate::scalar::law_opposite_is_exact(last);
        let before = hollowed(solid, fewer);
        let after = hollowed(solid, spheres);
        assert(after.place() >= before.place() && after.place() >= -last.place());
        assert forall|i: int| 0 <= i < spheres.len() implies after.place() >= -(
        #[trigger] spheres[i]).place() by {
            if i < fewer.len() {
                assert(fewer[i] == spheres[i]);
            }
        }
        if after.place() == before.place() && before.place() != solid.place() {
            let i = choose|i: int|
                0 <= i < fewer.len() && before.place() == -(#[trigger] fewer[i]).place();
            assert(spheres[i] == fewer[i]);
        }
    }
}

/// What is left of a wheel: a point is inside the cheese exactly where it is
/// inside the cylinder, outside the removed wedge if there is one, and outside
/// every bubble.
pub proof fn law_inside_the_cheese(
    spec: CheeseSpec,
    cylinder: Scalar,
    wedge: Scalar,
    spheres: Seq<Scalar>,
)
    requires
        !cylinder.not_a_number(),
        spec.bitten() ==> !wedge.not_a_number(),
        all_numbers(spheres),
    ensures
        field_value(spec, cylinder, wedge, spheres).negative() <==> {
            &&& cylinder.negative()
            &&& spec.bitten() ==> zero().below(wedge)
            &&& forall|i: int| 0 <= i < spheres.len() ==> zero().below(#[trigger] spheres[i])
        },
{
    crate::scalar::law_opposite_is_exact(wedge);
    let solid = if spec.bitten() {
        carved(cylinder, wedge)
    } else {
        cylinder
    };
    lemma_hollowed(solid, spheres);
    let field = field_value(spec, cylinder, wedge, spheres);
    if field.negative() {
        assert forall|i: int| 0 <= i < spheres.len() implies zero().below(
            #[trigger] spheres[i],
        ) by {
            assert(field.place() >= -spheres[i].place());
        }
    }
}

/// Every subtraction is a maximum: the field is the largest of the distance to the
/// cylinder and the distances to what is removed, turned inside out. In what order
/// the bubbles are removed makes no difference.
pub proof fn law_field_is_a_maximum(
    spec: CheeseSpec,
    cylinder: Scalar,
    wedge: Scalar,
    spheres: Seq<Scalar>,
)
    requires
        !cylinder.not_a_number(),
        spec.bitten() ==> !wedge.not_a_number(),
        all_numbers(spheres),
    ensures
        ({
            let field = field_value(spec, cylinder, wedge, spheres);
            &&& !field.not_a_number()
            &&& field.place() >= cylinder.place()
            &&& spec.bitten() ==> field.place() >= -wedge.place()
            &&& forall|i: int|
                0 <= i < spheres.len() ==> field.place() >= -(#[trigger] spheres[i]).place()
            &&& {
                ||| field.place() == cylinder.place()
                ||| spec.bitten() && field.place() == -wedge.place()
                ||| exists|i: int|
                    0 <= i < spheres.len() && field.place() == -(#[trigger] spheres[i]).place()
            }
        }),
{
    crate::scalar::law_opposite_is_exact(wedge);
    let solid = if spec.bitten() {
        carved(cylinder, wedge)
    } else {
        cylinder
    };
    lemma_hollowed(solid, spheres);
}

/// Removing more only removes: a wheel with fewer holes, which are the first of
/// those of the other, is nowhere emptier than it.
pub proof fn law_fewer_holes_keep_more_cheese(
    spec: CheeseSpec,
    cylinder: Scalar,
    wedge: Scalar,
    spheres: Seq<Scalar>,
    count: int,
)
    requires
        0 <= count <= spheres.len(),
        !cylinder.not_a_number(),
        spec.bitten() ==> !wedge.not_a_number(),
        all_numbers(spheres),
    ensures
        field_value(spec, cylinder, wedge, spheres.take(count)).place() <= field_value(
            spec,
            cylinder,
            wedge,
            spheres,
        ).place(),
        field_value(spec, cylinder, wedge, spheres).negative() ==> field_value(
            spec,
            cylinder,
            wedge,
            spheres.take(count),
        ).negative(),
{
    let few = spheres.take(count);
    assert forall|i: int| 0 <= i < few.len() implies !(#[trigger] few[i]).not_a_number() by {
        assert(few[i] == spheres[i]);
    }
    law_field_is_a_maximum(spec, cylinder, wedge, spheres);
    law_field_is_a_maximum(spec, cylinder, wedge, few);
    let field = field_value(spec, cylinder, wedge, spheres);
    assert forall|i: int| 0 <= i < few.len() implies field.place() >= -(
    #[trigger] few[i]).place() by {
        assert(few[i] == spheres[i]);
    }
}

proof fn lemma_hollowing_adds_nothing(solid: Scalar, spheres: Seq<Scalar>)
    requires
        !solid.not_a_number(),
    ensures
        !hollowed(solid, spheres).not_a_number(),
        hollowed(solid, spheres).place() >= solid.place(),
    decreases spheres.len(),
{
    if spheres.len() > 0 {
        lemma_hollowing_adds_nothing(solid, spheres.drop_last());
    }
}

/// Carving adds nothing: there is no cheese outside the whole cylinder, whatever
/// the distances to the slice and to the bubbles are.
pub proof fn law_carving_adds_nothing(
    spec: CheeseSpec,
    cylinder: Scalar,
    wedge: Scalar,
    spheres: Seq<Scalar>,
)
    requires
        !cylinder.not_a_number(),
    ensures
        !field_value(spec, cylinder, wedge, spheres).not_a_number(),
        field_value(spec, cylinder, wedge, spheres).place() >= cylinder.place(),
        field_value(spec, cylinder, wedge, spheres).negative() ==> cylinder.negative(),
{
    let solid = if spec.bitten() {
        carved(cylinder, wedge)
    } else {
        cylinder
    };
    lemma_hollowing_adds_nothing(solid, spheres);
}

/// Thinning a wheel reshuffles nothing: the bubbles that stay are the first ones,
/// and they are measured as they were.
pub proof fn law_thinned_wheel_keeps_its_bubbles<
    P,
    O: Fn(P) -> (Scalar, Scalar),
    J: Fn(CapTerms) -> Scalar,
    W: Fn(P) -> Scalar,
    S: Fn(P, Bubble) -> Scalar,
>(
    spec: CheeseSpec,
    count: usize,
    measures: &Measures<O, J, W, S>,
    p: P,
    cylinder: Scalar,
    wedge: Scalar,
    spheres: Seq<Scalar>,
)
    requires
        count <= spec.hole_count,
        measured(spec, measures, p, cylinder, wedge, spheres),
    ensures
        measured(
            (CheeseSpec { hole_count: count, ..spec }),
            measures,
            p,
            cylinder,
            wedge,
            spheres.take(count as int),
        ),
{
    let few = spheres.take(count as int);
    assert forall|i: usize| i < count implies is_sphere(
        spec.hole_seed,
        measures.sphere,
        p,
        i,
        #[trigger] few[i as int],
    ) by {
        assert(few[i as int] == spheres[i as int]);
    }
}

/// A bite of zero leaves the wheel round: the wedge does not enter the field.
pub proof fn law_no_bite_is_round(
    spec: CheeseSpec,
    cylinder: Scalar,
    wedge: Scalar,
    spheres: Seq<Scalar>,
)
    requires
        spec.wedge_bite.place() <= NO_BITE,
    ensures
        !spec.bitten(),
        field_value(spec, cylinder, wedge, spheres) == hollowed(cylinder, spheres),
{
}

/// The distance to a capped cylinder has its sign from the interior term alone:
/// inside, both overflows are zero, and outside, the interior term is.
pub proof fn law_cap_terms_do_not_mix(radial: Scalar, axial: Scalar)
    requires
        !radial.not_a_number(),
        !axial.not_a_number(),
    ensures
        ({
            let terms = cap_terms(radial, axial);
            &&& terms.interior.place() <= 0
            &&& terms.radial_overflow.place() >= 0
            &&& terms.axial_overflow.place() >= 0
            &&& terms.interior.negative() <==> radial.negative() && axial.negative()
            &&& terms.interior.negative() ==> terms.radial_overflow == zero()
                && terms.axial_overflow == zero()
            &&& !terms.interior.negative() ==> terms.interior.place() == 0
        }),
{
}

/// A bite is cut exactly where its angle is a number larger than 0.0001, however
/// large it is.
pub proof fn law_every_bite_is_cut(spec: CheeseSpec)
    ensures
        spec.bitten() <==> !spec.wedge_bite.not_a_number() && spec.wedge_bite.units() > (Scalar {
            bits: 0x38d1_b717,
        }).units(),
{
    if !spec.wedge_bite.not_a_number() {
        law_order_is_order_of_values(Scalar { bits: 0x38d1_b717 }, spec.wedge_bite);
    }
}

/// Each overflow is the positive part of its own overshoot, whatever the other one
/// is, and the interior term is the negative part of the larger overshoot. What is
/// not a number overflows nowhere and gives way to the other.
pub proof fn law_terms_are_parts_of_the_overshoot(radial: Scalar, axial: Scalar)
    ensures
        ({
            let terms = cap_terms(radial, axial);
            let r = radial.units();
            let a = axial.units();
            &&& !terms.interior.not_a_number()
            &&& !terms.radial_overflow.not_a_number()
            &&& !terms.axial_overflow.not_a_number()
            &&& terms.radial_overflow.units() == (if radial.not_a_number() || r < 0 {
                0
            } else {
                r
            })
            &&& terms.axial_overflow.units() == (if axial.not_a_number() || a < 0 {
                0
            } else {
                a
            })
            &&& !radial.not_a_number() && !axial.not_a_number() ==> terms.interior.units() == (
            if r >= 0 || a >= 0 {
                0
            } else if r >= a {
                r
            } else {
                a
            })
            &&& radial.not_a_number() && !axial.not_a_number() ==> terms.interior.units() == (
            if a >= 0 {
                0
            } else {
                a
            })
            &&& axial.not_a_number() && !radial.not_a_number() ==> terms.interior.units() == (
            if r >= 0 {
                0
            } else {
                r
            })
            &&& axial.not_a_number() && radial.not_a_number() ==> terms.interior.units() == 0
        }),
{
    let none = Scalar { bits: 0 };
    law_extremes_are_by_value(radial, axial);
    law_extremes_are_by_value(radial, none);
    law_extremes_are_by_value(axial, none);
    law_extremes_are_by_value(radial.larger(axial), none);
    assert(none.units() == 0);
}

/// The distance to the whole cylinder is what joining the terms of the point's own
/// overshoot gives.
pub proof fn law_cylinder_is_joined_from_its_overshoot<
    P,
    O: Fn(P) -> (Scalar, Scalar),
    J: Fn(CapTerms) -> Scalar,
    W,
    S,
>(measures: &Measures<O, J, W, S>, p: P, d: Scalar, radial: Scalar, axial: Scalar)
    requires
        is_cylinder(measures, p, d),
        call_ensures(measures.overshoot, (p,), (radial, axial)),
        forall|x: (Scalar, Scalar)| #[trigger]
            call_ensures(measures.overshoot, (p,), x) ==> x == (radial, axial),
    ensures
        call_ensures(measures.join, (cap_terms(radial, axial),), d),
{
    let (r, a) = choose|r: Scalar, a: Scalar| #[trigger]
        call_ensures(measures.overshoot, (p,), (r, a)) && call_ensures(
            measures.join,
            (cap_terms(r, a),),
            d,
        );
    assert((r, a) == (radial, axial));
}

/// Whether `value` is a number that is no less than `least`.
pub open spec fn reaches(value: Scalar, least: int) -> bool {
    !value.not_a_number() && value.units() >= least
}

/// Whether `r` is a value of the field of this wheel at `p`, read off the answers
/// themselves: it reaches the distance to the cylinder, and with the opposite sign the
/// distance to the slice if the bite is larger than 0.0001 and the distance to every
/// bubble that the wheel's seed gives an index below its hole count; and it is one of
/// them. Answers that are not numbers are passed over.
pub open spec fn is_largest<
    P,
    O: Fn(P) -> (Scalar, Scalar),
    J: Fn(CapTerms) -> Scalar,
    W: Fn(P) -> Scalar,
    S: Fn(P, Bubble) -> Scalar,
>(spec: CheeseSpec, measures: &Measures<O, J, W, S>, p: P, r: Scalar) -> bool {
    &&& forall|radial: Scalar, axial: Scalar, d: Scalar| #[trigger]
        call_ensures(measures.overshoot, (p,), (radial, axial)) && #[trigger] call_ensures(
            measures.join,
            (cap_terms(radial, axial),),
            d,
        ) && !d.not_a_number() ==> reaches(r, d.units())
    &&& forall|w: Scalar| #[trigger]
        call_ensures(measures.wedge, (p,), w) && !w.not_a_number()
            && !spec.wedge_bite.not_a_number() && spec.wedge_bite.units() > (Scalar {
            bits: 0x38d1_b717,
        }).units() ==> reaches(r, -w.units())
    &&& forall|i: usize, b: Bubble, s: Scalar|
        i < spec.hole_count && #[trigger] is_bubble(spec.hole_seed, i, b)
            && #[trigger] call_ensures(measures.sphere, (p, b), s) && !s.not_a_number() ==> reaches(
            r,
            -s.units(),
        )
    &&& !r.not_a_number() ==> {
        ||| exists|radial: Scalar, axial: Scalar, d: Scalar| #[trigger]
            call_ensures(measures.overshoot, (p,), (radial, axial)) && #[trigger] call_ensures(
                measures.join,
                (cap_terms(radial, axial),),
                d,
            ) && !d.not_a_number() && r.units() == d.units()
        ||| exists|w: Scalar| #[trigger]
            call_ensures(measures.wedge, (p,), w) && !w.not_a_number()
                && !spec.wedge_bite.not_a_number() && spec.wedge_bite.units() > (Scalar {
                bits: 0x38d1_b717,
            }).units() && r.units() == -w.units()
        ||| exists|i: usize, b: Bubble, s: Scalar|
            i < spec.hole_count && #[trigger] is_bubble(spec.hole_seed, i, b)
                && #[trigger] call_ensures(measures.sphere, (p, b), s) && !s.not_a_number()
                && r.units() == -s.units()
    }
}

/// Subtracting takes the larger of the solid and the tool turned inside out, and
/// passes over what is not a number.
proof fn lemma_carved(solid: Scalar, tool: Scalar)
    ensures
        !solid.not_a_number() ==> reaches(carved(solid, tool), solid.units()),
        !tool.not_a_number() ==> reaches(carved(solid, tool), -tool.units()),
        !carved(solid, tool).not_a_number() ==> (!solid.not_a_number() && carved(
            solid,
            tool,
        ).units() == solid.units()) || (!tool.not_a_number() && carved(solid, tool).units()
            == -tool.units()),
{
    crate::scalar::law_opposite_is_exact(tool);
    law_extremes_are_by_value(solid, tool.opposite());
}

proof fn lemma_hollowed_is_largest(solid: Scalar, spheres: Seq<Scalar>)
    ensures
        !solid.not_a_number() ==> reaches(hollowed(solid, spheres), solid.units()),
        forall|i: int|
            0 <= i < spheres.len() && !(#[trigger] spheres[i]).not_a_number() ==> reaches(
                hollowed(solid, spheres),
                -spheres[i].units(),
            ),
        !hollowed(solid, spheres).not_a_number() ==> (!solid.not_a_number() && hollowed(
            solid,
            spheres,
        ).units() == solid.units()) || exists|i: int|
            0 <= i < spheres.len() && !(#[trigger] spheres[i]).not_a_number() && hollowed(
                solid,
                spheres,
            ).units() == -spheres[i].units(),
    decreases spheres.len(),
{
    if spheres.len() > 0 {
        let fewer = spheres.drop_last();
        lemma_hollowed_is_largest(solid, fewer);
        let before = hollowed(solid, fewer);
        let after = hollowed(solid, spheres);
        lemma_carved(before, spheres.last());
        assert forall|i: int|
            0 <= i < spheres.len() && !(#[trigger] spheres[i]).not_a_number() implies reaches(
            after,
            -spheres[i].units(),
        ) by {
            if i < fewer.len() {
                assert(fewer[i] == spheres[i]);
                assert(reaches(before, -fewer[i].units()));
            }
        }
        if !after.not_a_number() {
            if !before.not_a_number() && after.units() == before.units() {
                if exists|i: int|
                    0 <= i < fewer.len() && !(#[trigger] fewer[i]).not_a_number() && before.units()
                        == -fewer[i].units() {
                    let i = choose|i: int|
                        0 <= i < fewer.len() && !(#[trigger] fewer[i]).not_a_number()
                            && before.units() == -fewer[i].units();
                    assert(spheres[i] == fewer[i]);
                }
            } else {
                assert(spheres[spheres.len() - 1] == spheres.last());
            }
        }
    }
}

/// Every piece of a wheel is carved, and nothing else: where the measures always
/// measure the same, the field at a point is the largest of the distance to the
/// cylinder and, turned inside out, the distances to the slice and to each of the
/// wheel's own bubbles, each by its own index.
pub proof fn law_field_is_the_largest_of_its_own_solids<
    P,
    O: Fn(P) -> (Scalar, Scalar),
    J: Fn(CapTerms) -> Scalar,
    W: Fn(P) -> Scalar,
    S: Fn(P, Bubble) -> Scalar,
>(spec: CheeseSpec, measures: &Measures<O, J, W, S>, p: P, r: Scalar)
    requires
        definite(measures),
        is_field(spec, measures, p, r),
    ensures
        is_largest(spec, measures, p, r),
{
    let (cylinder, wedge, spheres) = choose|
        cylinder: Scalar,
        wedge: Scalar,
        spheres: Seq<Scalar>,
    |
        measured(spec, measures, p, cylinder, wedge, spheres) && r == #[trigger] field_value(
            spec,
            cylinder,
            wedge,
            spheres,
        );
    let solid = if spec.bitten() {
        carved(cylinder, wedge)
    } else {
        cylinder
    };
    law_every_bite_is_cut(spec);
    lemma_carved(cylinder, wedge);
    lemma_hollowed_is_largest(solid, spheres);
    assert(is_cylinder(measures, p, cylinder));
    let (r0, a0) = choose|radial: Scalar, axial: Scalar| #[trigger]
        call_ensures(measures.overshoot, (p,), (radial, axial)) && call_ensures(
            measures.join,
            (cap_terms(radial, axial),),
            cylinder,
        );
    assert forall|radial: Scalar, axial: Scalar, d: Scalar| #[trigger]
        call_ensures(measures.overshoot, (p,), (radial, axial)) && #[trigger] call_ensures(
            measures.join,
            (cap_terms(radial, axial),),
            d,
        ) && !d.not_a_number() implies reaches(r, d.units()) by {
        assert((radial, axial) == (r0, a0));
        assert(d == cylinder);
    }
    assert forall|i: usize, b: Bubble, s: Scalar|
        i < spec.hole_count && #[trigger] is_bubble(spec.hole_seed, i, b)
            && #[trigger] call_ensures(measures.sphere, (p, b), s)
            && !s.not_a_number() implies reaches(r, -s.units()) by {
        assert(is_sphere(spec.hole_seed, measures.sphere, p, i, spheres[i as int]));
        let hole = choose|hole: Bubble| #[trigger]
            is_bubble(spec.hole_seed, i, hole) && call_ensures(
                measures.sphere,
                (p, hole),
                spheres[i as int],
            );
        law_same_seed_same_bubbles(spec, spec, i, hole, b);
        assert(spheres[i as int] == s);
    }
    if !r.not_a_number() {
        if exists|i: int|
            0 <= i < spheres.len() && !(#[trigger] spheres[i]).not_a_number() && r.units()
                == -spheres[i].units() {
            let n = choose|i: int|
                0 <= i < spheres.len() && !(#[trigger] spheres[i]).not_a_number() && r.units()
                    == -spheres[i].units();
            let i = n as usize;
            assert(is_sphere(spec.hole_seed, measures.sphere, p, i, spheres[i as int]));
            let hole = choose|hole: Bubble| #[trigger]
                is_bubble(spec.hole_seed, i, hole) && call_ensures(
                    measures.sphere,
                    (p, hole),
                    spheres[i as int],
                );
            assert(is_bubble(spec.hole_seed, i, hole) && call_ensures(
                measures.sphere,
                (p, hole),
                spheres[i as int],
            ));
        } else {
            assert(!solid.not_a_number() && r.units() == solid.units());
            if !cylinder.not_a_number() && r.units() == cylinder.units() {
                assert(call_ensures(measures.overshoot, (p,), (r0, a0)) && call_ensures(
                    measures.join,
                    (cap_terms(r0, a0),),
                    cylinder,
                ));
            } else {
                assert(call_ensures(measures.wedge, (p,), wedge));
            }
        }
    }
}

/// The bite does not move the holes: whatever the bite of a wheel is, each bubble of
/// its seed is carved out of it.
pub proof fn law_bite_does_not_move_the_bubbles<
    P,
    O: Fn(P) -> (Scalar, Scalar),
    J: Fn(CapTerms) -> Scalar,
    W: Fn(P) -> Scalar,
    S: Fn(P, Bubble) -> Scalar,
>(
    spec: CheeseSpec,
    bite: Scalar,
    measures: &Measures<O, J, W, S>,
    p: P,
    i: usize,
    b: Bubble,
    s: Scalar,
    r: Scalar,
)
    requires
        definite(measures),
        is_field((CheeseSpec { wedge_bite: bite, ..spec }), measures, p, r),
        i < spec.hole_count,
        is_bubble(spec.hole_seed, i, b),
        call_ensures(measures.sphere, (p, b), s),
        !s.not_a_number(),
    ensures
        !r.not_a_number(),
        r.units() >= -s.units(),
{
    law_field_is_the_largest_of_its_own_solids(
        CheeseSpec { wedge_bite: bite, ..spec },
        measures,
        p,
        r,
    );
}

/// There is cheese only within the cylinder, outside the slice and outside every
/// bubble: where the field is negative, no answer that is a number says otherwise.
pub proof fn law_cheese_is_what_is_left<
    P,
    O: Fn(P) -> (Scalar, Scalar),
    J: Fn(CapTerms) -> Scalar,
    W: Fn(P) -> Scalar,
    S: Fn(P, Bubble) -> Scalar,
>(spec: CheeseSpec, measures: &Measures<O, J, W, S>, p: P, r: Scalar)
    requires
        definite(measures),
        is_field(spec, measures, p, r),
        !r.not_a_number(),
        r.units() < 0,
    ensures
        forall|radial: Scalar, axial: Scalar, d: Scalar| #[trigger]
            call_ensures(measures.overshoot, (p,), (radial, axial)) && #[trigger] call_ensures(
                measures.join,
                (cap_terms(radial, axial),),
                d,
            ) && !d.not_a_number() ==> d.units() < 0,
        forall|w: Scalar| #[trigger]
            call_ensures(measures.wedge, (p,), w) && !w.not_a_number()
                && !spec.wedge_bite.not_a_number() && spec.wedge_bite.units() > (Scalar {
                bits: 0x38d1_b717,
            }).units() ==> w.units() > 0,
        forall|i: usize, b: Bubble, s: Scalar|
            i < spec.hole_count && #[trigger] is_bubble(spec.hole_seed, i, b)
                && #[trigger] call_ensures(measures.sphere, (p, b), s) && !s.not_a_number()
                ==> s.units() > 0,
{
    law_field_is_the_largest_of_its_own_solids(spec, measures, p, r);
}

/// Nothing is carved away without a reason: where the field is a number that is not
/// negative, the point lies outside the cylinder, in the slice of a wheel that has
/// one, or in a bubble.
pub proof fn law_what_is_gone_was_carved<
    P,
    O: Fn(P) -> (Scalar, Scalar),
    J: Fn(CapTerms) -> Scalar,
    W: Fn(P) -> Scalar,
    S: Fn(P, Bubble) -> Scalar,
>(spec: CheeseSpec, measures: &Measures<O, J, W, S>, p: P, r: Scalar)
    requires
        definite(measures),
        is_field(spec, measures, p, r),
        !r.not_a_number(),
        r.units() >= 0,
    ensures
        (exists|radial: Scalar, axial: Scalar, d: Scalar| #[trigger]
            call_ensures(measures.overshoot, (p,), (radial, axial)) && #[trigger] call_ensures(
                measures.join,
                (cap_terms(radial, axial),),
                d,
            ) && d.units() >= 0) || (!spec.wedge_bite.not_a_number() && spec.wedge_bite.units() > (
        Scalar { bits: 0x38d1_b717 }).units() && exists|w: Scalar| #[trigger]
            call_ensures(measures.wedge, (p,), w) && w.units() <= 0) || (exists|
            i: usize,
            b: Bubble,
            s: Scalar,
        |
            i < spec.hole_count && #[trigger] is_bubble(spec.hole_seed, i, b)
                && #[trigger] call_ensures(measures.sphere, (p, b), s) && s.units() <= 0),
{
    law_field_is_the_largest_of_its_own_solids(spec, measures, p, r);
}

} // verus!
