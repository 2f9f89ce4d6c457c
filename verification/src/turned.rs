//! Turning a field inside out: the surface stays where it is, and every triangle
//! faces the other way.

use vstd::prelude::*;
use crate::grid::{far, flat, lemma_flat_bounds, law_flat_is_onto, origin, volume};
use crate::nets::{all_numbered, axis_indices, beside, cell_visit, corner_inside, corner_of, crosses, crossings_on, definite, definite_gradient, edge_crossed, edge_end, edge_indices, edge_samples, embedded, first_edge, inside, is_gradient, is_sample, is_surface, law_gradient_is_a_function, law_surface_is_a_function, mixed, number_at, numbers_at, one_valued, placed, probed, quad_cells, quad_visit, rank, sampled, surface_cells, surface_indices, vertex_number, Around, Axis, Crossing, Embedding, Field, EDGES};
use crate::scalar::{law_opposite_is_exact, Scalar};
use crate::scan::{in_box, joins, lemma_scan_related, lemma_scan_same, scan_before};
use crate::surface::law_vertex_has_one_cell;

verus! {

/// Whether every sample is a number other than zero, so that its sign can turn.
pub open spec fn all_signed(samples: Seq<Scalar>) -> bool {
    forall|n: int| 0 <= n < samples.len() ==> signed(#[trigger] samples[n])
}

/// Whether this is a number other than zero.
pub open spec fn signed(s: Scalar) -> bool {
    !s.not_a_number() && s.place() != 0
}

/// The samples of the negated field.
pub open spec fn negated(samples: Seq<Scalar>) -> Seq<Scalar> {
    Seq::new(samples.len(), |n: int| samples[n].opposite())
}

/// The index list with the last two corners of each triangle exchanged.
pub open spec fn turned(indices: Seq<u32>) -> Seq<u32> {
    Seq::new(
        indices.len(),
        |n: int|
            if n % 3 == 0 {
                indices[n]
            } else if n % 3 == 1 {
                indices[n + 1]
            } else {
                indices[n - 1]
            },
    )
}

/// A negated field is inside where the field is outside.
proof fn lemma_inside_turns(samples: Seq<Scalar>, res: int, i: int, j: int, k: int)
    requires
        samples.len() == volume(res + 1),
        all_signed(samples),
        in_box(origin(), far(res + 1), i, j, k),
    ensures
        inside(negated(samples), res, i, j, k) == !inside(samples, res, i, j, k),
{
    lemma_flat_bounds(res + 1, i, j, k);
    law_opposite_is_exact(samples[flat(res + 1, i, j, k)]);
    assert(signed(samples[flat(res + 1, i, j, k)]));
}

/// The surface of a negated field passes through the same cells.
proof fn lemma_mixed_stays(samples: Seq<Scalar>, res: int, i: int, j: int, k: int)
    requires
        samples.len() == volume(res + 1),
        all_signed(samples),
        in_box(origin(), far(res), i, j, k),
    ensures
        mixed(negated(samples), res, i, j, k) == mixed(samples, res, i, j, k),
{
    reveal(mixed);
    assert forall|c: int| 0 <= c < 8 implies #[trigger] corner_inside(
        negated(samples),
        res,
        i,
        j,
        k,
        c,
    ) == !corner_inside(samples, res, i, j, k, c) by {
        let p = corner_of(i, j, k, c);
        lemma_inside_turns(samples, res, p.0, p.1, p.2);
    }
    if mixed(samples, res, i, j, k) {
        let a = choose|c: int| 0 <= c < 8 && #[trigger] corner_inside(samples, res, i, j, k, c);
        let b = choose|c: int| 0 <= c < 8 && !#[trigger] corner_inside(samples, res, i, j, k, c);
        assert(!corner_inside(negated(samples), res, i, j, k, a));
        assert(corner_inside(negated(samples), res, i, j, k, b));
    }
    if mixed(negated(samples), res, i, j, k) {
        let a = choose|c: int|
            0 <= c < 8 && #[trigger] corner_inside(negated(samples), res, i, j, k, c);
        let b = choose|c: int|
            0 <= c < 8 && !#[trigger] corner_inside(negated(samples), res, i, j, k, c);
        assert(!corner_inside(samples, res, i, j, k, a));
        assert(corner_inside(samples, res, i, j, k, b));
    }
}

/// The cells of a negated field have the same vertices with the same numbers.
proof fn lemma_numbers_stay(samples: Seq<Scalar>, res: int)
    requires
        0 <= res,
        samples.len() == volume(res + 1),
        all_signed(samples),
    ensures
        surface_cells(negated(samples), res) == surface_cells(samples, res),
        forall|i: int, j: int, k: int|
            in_box(origin(), far(res), i, j, k) ==> #[trigger] vertex_number(
                negated(samples),
                res,
                i,
                j,
                k,
            ) == vertex_number(samples, res, i, j, k),
{
    let f = cell_visit(negated(samples), res);
    let g = cell_visit(samples, res);
    assert forall|i: int, j: int, k: int| in_box(origin(), far(res), i, j, k) implies #[trigger] f(
        i,
        j,
        k,
    ) == g(i, j, k) by {
        lemma_mixed_stays(samples, res, i, j, k);
    }
    lemma_scan_same(f, g, origin(), far(res));
    assert forall|i: int, j: int, k: int|
        in_box(origin(), far(res), i, j, k) implies #[trigger] vertex_number(
        negated(samples),
        res,
        i,
        j,
        k,
    ) == vertex_number(samples, res, i, j, k) by {
        reveal(vertex_number);
        lemma_mixed_stays(samples, res, i, j, k);
        assert(scan_before(f, origin(), far(res), i, j, k) == scan_before(
            g,
            origin(),
            far(res),
            i,
            j,
            k,
        ));
        assert(rank(negated(samples), res, i, j, k) == rank(samples, res, i, j, k));
    }
}

/// The triangles across one edge turn.
proof fn lemma_edge_turns(samples: Seq<Scalar>, res: int, axis: Axis, i: int, j: int, k: int)
    requires
        0 <= res,
        samples.len() == volume(res + 1),
        all_signed(samples),
        in_box(first_edge(axis), far(res), i, j, k),
    ensures
        edge_indices(samples, res, axis, i, j, k).len() % 3 == 0,
        edge_indices(negated(samples), res, axis, i, j, k) == turned(
            edge_indices(samples, res, axis, i, j, k),
        ),
{
    reveal(edge_indices);
    let end = edge_end(axis, i, j, k);
    lemma_inside_turns(samples, res, i, j, k);
    lemma_inside_turns(samples, res, end.0, end.1, end.2);
    lemma_numbers_stay(samples, res);
    let before = edge_indices(samples, res, axis, i, j, k);
    let after = edge_indices(negated(samples), res, axis, i, j, k);
    assert forall|u: int, v: int| 0 <= u <= 1 && 0 <= v <= 1 implies number_at(
        negated(samples),
        res,
        #[trigger] beside(axis, i, j, k, u, v),
    ) == number_at(samples, res, beside(axis, i, j, k, u, v)) by {
        let p = beside(axis, i, j, k, u, v);
        assert(in_box(origin(), far(res), p.0, p.1, p.2));
        assert(vertex_number(negated(samples), res, p.0, p.1, p.2) == vertex_number(
            samples,
            res,
            p.0,
            p.1,
            p.2,
        ));
    }
    assert(all_numbered(negated(samples), res, axis, i, j, k) == all_numbered(
        samples,
        res,
        axis,
        i,
        j,
        k,
    ));
    assert(crosses(negated(samples), res, axis, i, j, k) == crosses(samples, res, axis, i, j, k));
    if crosses(samples, res, axis, i, j, k) && all_numbered(samples, res, axis, i, j, k) {
        let a = number_at(samples, res, beside(axis, i, j, k, 1, 1));
        let b = number_at(samples, res, beside(axis, i, j, k, 0, 1));
        let c = number_at(samples, res, beside(axis, i, j, k, 0, 0));
        let e = number_at(samples, res, beside(axis, i, j, k, 1, 0));
        let flag = inside(samples, res, i, j, k);
        assert(before == numbers_at(samples, res, quad_cells(axis, i, j, k, flag)));
        assert(after == numbers_at(negated(samples), res, quad_cells(axis, i, j, k, !flag)));
        if flag != (axis == Axis::Y) {
            assert(before =~= seq![a, b, c, a, c, e]);
            assert(after =~= seq![a, c, b, a, e, c]);
        } else {
            assert(before =~= seq![a, c, b, a, e, c]);
            assert(after =~= seq![a, b, c, a, c, e]);
        }
        assert(after =~= turned(before));
    } else {
        assert(after =~= turned(before));
    }
}

proof fn lemma_turned_joins(a: Seq<u32>, b: Seq<u32>)
    requires
        a.len() % 3 == 0,
        b.len() % 3 == 0,
    ensures
        turned(a + b) == turned(a) + turned(b),
{
    assert forall|n: int| 0 <= n < (a + b).len() implies turned(a + b)[n] == (turned(a) + turned(
        b,
    ))[n] by {
        if n >= a.len() {
            let m = n - a.len();
            assert(m % 3 == n % 3);
        }
    }
    assert(turned(a + b) =~= turned(a) + turned(b));
}

proof fn lemma_axis_turns(samples: Seq<Scalar>, res: int, axis: Axis)
    requires
        0 <= res,
        samples.len() == volume(res + 1),
        all_signed(samples),
    ensures
        axis_indices(samples, res, axis).len() % 3 == 0,
        axis_indices(negated(samples), res, axis) == turned(axis_indices(samples, res, axis)),
{
    let f = quad_visit(samples, res, axis);
    let g = quad_visit(negated(samples), res, axis);
    let turns = |a: Seq<u32>, b: Seq<u32>| a.len() % 3 == 0 && b == turned(a);
    assert forall|a: Seq<u32>, b: Seq<u32>, c: Seq<u32>, d: Seq<u32>| #[trigger]
        joins(turns, a, b, c, d) by {
        if turns(a, b) && turns(c, d) {
            lemma_turned_joins(a, c);
        }
    }
    assert(turned(Seq::empty()) =~= Seq::<u32>::empty());
    assert forall|i: int, j: int, k: int| in_box(first_edge(axis), far(res), i, j, k) implies turns(
        #[trigger] f(i, j, k),
        g(i, j, k),
    ) by {
        lemma_edge_turns(samples, res, axis, i, j, k);
    }
    lemma_scan_related(f, g, first_edge(axis), far(res), turns);
}

/// Negating the samples, none of which is zero, keeps the vertices and turns every
/// triangle round.
pub proof fn law_negated_samples_turn_triangles(samples: Seq<Scalar>, res: int)
    requires
        0 <= res,
        samples.len() == volume(res + 1),
        all_signed(samples),
    ensures
        surface_cells(negated(samples), res) == surface_cells(samples, res),
        surface_indices(negated(samples), res) == turned(surface_indices(samples, res)),
{
    lemma_numbers_stay(samples, res);
    lemma_axis_turns(samples, res, Axis::X);
    lemma_axis_turns(samples, res, Axis::Y);
    lemma_axis_turns(samples, res, Axis::Z);
    let x = axis_indices(samples, res, Axis::X);
    let y = axis_indices(samples, res, Axis::Y);
    lemma_turned_joins(x, y);
    lemma_turned_joins(x + y, axis_indices(samples, res, Axis::Z));
}

/// A crossing of the negated field.
pub open spec fn negated_crossing(x: Crossing) -> Crossing {
    Crossing { at_a: x.at_a.opposite(), at_b: x.at_b.opposite(), ..x }
}

/// The crossings of the negated field.
pub open spec fn negated_crossings(crossings: Seq<Crossing>) -> Seq<Crossing> {
    Seq::new(crossings.len(), |n: int| negated_crossing(crossings[n]))
}

proof fn lemma_crossings_turn(samples: Seq<Scalar>, res: int, i: int, j: int, k: int, n: int)
    requires
        samples.len() == volume(res + 1),
        all_signed(samples),
        in_box(origin(), far(res), i, j, k),
        0 <= n <= 12,
    ensures
        crossings_on(negated(samples), res, i, j, k, n) == negated_crossings(
            crossings_on(samples, res, i, j, k, n),
        ),
    decreases n,
{
    if n > 0 {
        lemma_crossings_turn(samples, res, i, j, k, n - 1);
        let e = n - 1;
        let a = corner_of(i, j, k, EDGES[e].0 as int);
        let b = corner_of(i, j, k, EDGES[e].1 as int);
        assert(EDGES[e].0 < 8 && EDGES[e].1 < 8);
        lemma_inside_turns(samples, res, a.0, a.1, a.2);
        lemma_inside_turns(samples, res, b.0, b.1, b.2);
        lemma_flat_bounds(res + 1, a.0, a.1, a.2);
        lemma_flat_bounds(res + 1, b.0, b.1, b.2);
        assert(edge_crossed(negated(samples), res, i, j, k, e) == edge_crossed(
            samples,
            res,
            i,
            j,
            k,
            e,
        ));
        assert(edge_samples(negated(samples), res, i, j, k, e) == negated_crossing(
            edge_samples(samples, res, i, j, k, e),
        ));
    }
    assert(crossings_on(negated(samples), res, i, j, k, n) =~= negated_crossings(
        crossings_on(samples, res, i, j, k, n),
    ));
}

/// The negated field.
pub open spec fn negated_field<P>(field: Field<P>) -> Field<P> {
    |p: P, value: Scalar| field(p, value.opposite())
}

/// Six values of the negated field.
pub open spec fn negated_values(v: Around<Scalar>) -> Around<Scalar> {
    Around {
        x: (v.x.0.opposite(), v.x.1.opposite()),
        y: (v.y.0.opposite(), v.y.1.opposite()),
        z: (v.z.0.opposite(), v.z.1.opposite()),
    }
}

/// Whether negating all six values turns the slope by `flip`.
pub open spec fn odd<N, G: Fn(Around<Scalar>) -> N>(slope: G, flip: spec_fn(N) -> N) -> bool {
    forall|values: Around<Scalar>, normal: N| #[trigger]
        call_ensures(slope, (values,), normal) ==> call_ensures(
            slope,
            (negated_values(values),),
            flip(normal),
        )
}

/// Whether an embedding takes no side: it places a vertex by where its edges are
/// divided, whichever of their ends is inside, and turns a normal by `flip` where
/// all six values around it are negated.
pub open spec fn impartial<
    P,
    N,
    C: Fn(usize, usize, usize) -> P,
    V: Fn(&Vec<Crossing>) -> P,
    A: Fn(P) -> Around<P>,
    G: Fn(Around<Scalar>) -> N,
>(embedding: Embedding<C, V, A, G>, flip: spec_fn(N) -> N) -> bool {
    &&& forall|crossings: Seq<Crossing>, p: P| #[trigger]
        placed(embedding.place, crossings, p) ==> placed(
            embedding.place,
            negated_crossings(crossings),
            p,
        )
    &&& odd(embedding.slope, flip)
}

/// Whether a field is a number other than zero at every grid corner.
pub open spec fn signed_at_corners<P, C: Fn(usize, usize, usize) -> P>(
    field: Field<P>,
    corner: C,
    res: usize,
) -> bool {
    forall|i: usize, j: usize, k: usize, value: Scalar|
        i <= res && j <= res && k <= res && #[trigger] is_sample(field, corner, i, j, k, value)
            ==> signed(value)
}

/// The gradient of a negated field is the gradient of the field, turned round.
pub proof fn law_negated_field_turns_gradient<
    P,
    N,
    A: Fn(P) -> Around<P>,
    G: Fn(Around<Scalar>) -> N,
>(field: Field<P>, around: A, slope: G, flip: spec_fn(N) -> N, p: P, normal: N)
    requires
        odd(slope, flip),
        is_gradient(field, around, slope, p, normal),
    ensures
        is_gradient(negated_field(field), around, slope, p, flip(normal)),
        one_valued(field) && definite_gradient(around, slope) ==> forall|other: N| #[trigger]
            is_gradient(negated_field(field), around, slope, p, other) ==> other == flip(normal),
{
    let (points, values) = choose|points: Around<P>, values: Around<Scalar>| #[trigger]
        call_ensures(around, (p,), points) && #[trigger] probed(field, points, values)
            && call_ensures(slope, (values,), normal);
    let after = negated_values(values);
    law_opposite_is_exact(values.x.0);
    law_opposite_is_exact(values.x.1);
    law_opposite_is_exact(values.y.0);
    law_opposite_is_exact(values.y.1);
    law_opposite_is_exact(values.z.0);
    law_opposite_is_exact(values.z.1);
    assert(probed(negated_field(field), points, after));
    assert(is_gradient(negated_field(field), around, slope, p, flip(normal)));
    if one_valued(field) && definite_gradient(around, slope) {
        lemma_negated_field_is_one_valued(field);
        assert forall|other: N| #[trigger]
            is_gradient(negated_field(field), around, slope, p, other) implies other == flip(
            normal,
        ) by {
            law_gradient_is_a_function(
                negated_field(field),
                around,
                slope,
                p,
                other,
                flip(normal),
            );
        }
    }
}

proof fn lemma_negated_field_is_one_valued<P>(field: Field<P>)
    requires
        one_valued(field),
    ensures
        one_valued(negated_field(field)),
{
    let opposite = negated_field(field);
    assert forall|p: P, x: Scalar, y: Scalar| #[trigger] opposite(p, x) && #[trigger] opposite(
        p,
        y,
    ) implies x == y by {
        assert(field(p, x.opposite()) && field(p, y.opposite()));
        law_opposite_is_exact(x);
        law_opposite_is_exact(y);
    }
}

/// Negating a field that is nowhere zero at the grid corners keeps the positions of
/// the vertices, flips the normals, and turns every triangle round. Where field and
/// embedding always answer the same, no other surface comes out.
pub proof fn law_negated_field_turns_surface<
    P,
    N,
    C: Fn(usize, usize, usize) -> P,
    V: Fn(&Vec<Crossing>) -> P,
    A: Fn(P) -> Around<P>,
    G: Fn(Around<Scalar>) -> N,
>(
    field: Field<P>,
    res: usize,
    embedding: Embedding<C, V, A, G>,
    flip: spec_fn(N) -> N,
    positions: Seq<P>,
    normals: Seq<N>,
    indices: Seq<u32>,
)
    requires
        signed_at_corners(field, embedding.corner, res),
        impartial(embedding, flip),
        is_surface(field, res, embedding, positions, normals, indices),
    ensures
        is_surface(
            negated_field(field),
            res,
            embedding,
            positions,
            Seq::new(normals.len(), |v: int| flip(normals[v])),
            turned(indices),
        ),
        one_valued(field) && definite(embedding) ==> forall|
            p: Seq<P>,
            n: Seq<N>,
            i: Seq<u32>,
        | #[trigger]
            is_surface(negated_field(field), res, embedding, p, n, i) ==> p == positions && n
                == Seq::new(normals.len(), |v: int| flip(normals[v])) && i == turned(indices),
{
    let samples = choose|samples: Seq<Scalar>| #[trigger]
        sampled(field, embedding.corner, res, samples) && embedded(
            field,
            samples,
            res as int,
            embedding,
            positions,
            normals,
        ) && indices == surface_indices(samples, res as int);
    let after = negated(samples);
    let opposite = negated_field(field);
    let flipped = Seq::new(normals.len(), |v: int| flip(normals[v]));
    assert forall|n: int| 0 <= n < samples.len() implies signed(#[trigger] samples[n]) by {
        let at = law_flat_is_onto(res + 1, n);
        let (i, j, k) = (at.0 as usize, at.1 as usize, at.2 as usize);
        assert(flat(res + 1, i as int, j as int, k as int) == n);
        assert(is_sample(field, embedding.corner, i, j, k, samples[n]));
    }
    assert(sampled(opposite, embedding.corner, res, after)) by {
        assert forall|i: usize, j: usize, k: usize|
            i <= res && j <= res && k <= res implies is_sample(
            opposite,
            embedding.corner,
            i,
            j,
            k,
            after[#[trigger] flat(res + 1, i as int, j as int, k as int)],
        ) by {
            let at = flat(res + 1, i as int, j as int, k as int);
            lemma_flat_bounds(res + 1, i as int, j as int, k as int);
            assert(is_sample(field, embedding.corner, i, j, k, samples[at]));
            law_opposite_is_exact(samples[at]);
            let p = choose|p: P| #[trigger]
                call_ensures(embedding.corner, (i, j, k), p) && field(p, samples[at]);
            assert(call_ensures(embedding.corner, (i, j, k), p) && opposite(p, after[at]));
        }
    }
    law_negated_samples_turn_triangles(samples, res as int);
    let cells = surface_cells(samples, res as int);
    assert forall|v: int| 0 <= v < cells.len() implies placed(
        embedding.place,
        crossings_on(
            after,
            res as int,
            cells[v].i as int,
            cells[v].j as int,
            cells[v].k as int,
            12,
        ),
        #[trigger] positions[v],
    ) by {
        let c = cells[v];
        law_vertex_has_one_cell(samples, res as int, v);
        lemma_crossings_turn(samples, res as int, c.i as int, c.j as int, c.k as int, 12);
        let crossings = crossings_on(
            samples,
            res as int,
            c.i as int,
            c.j as int,
            c.k as int,
            12,
        );
        assert(placed(embedding.place, crossings, positions[v]));
    }
    assert forall|v: int| 0 <= v < cells.len() implies is_gradient(
        opposite,
        embedding.around,
        embedding.slope,
        positions[v],
        #[trigger] flipped[v],
    ) by {
        assert(is_gradient(field, embedding.around, embedding.slope, positions[v], normals[v]));
        law_negated_field_turns_gradient(
            field,
            embedding.around,
            embedding.slope,
            flip,
            positions[v],
            normals[v],
        );
    }
    assert(embedded(opposite, after, res as int, embedding, positions, flipped));
    assert(is_surface(opposite, res, embedding, positions, flipped, turned(indices)));
    if one_valued(field) && definite(embedding) {
        lemma_negated_field_is_one_valued(field);
        assert forall|p: Seq<P>, n: Seq<N>, i: Seq<u32>| #[trigger]
            is_surface(opposite, res, embedding, p, n, i) implies p == positions && n == flipped
            && i == turned(indices) by {
            law_surface_is_a_function(
                opposite,
                res,
                embedding,
                (p, n, i),
                (positions, flipped, turned(indices)),
            );
        }
    }
}

} // verus!
