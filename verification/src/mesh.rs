//! Packing a surface net into a renderer's mesh.

use bevy::asset::RenderAssetUsages;
use bevy::math::{Vec2, Vec3};
use bevy::mesh::{Indices, Mesh, PrimitiveTopology};
use vstd::prelude::*;
use crate::closed::{contained, law_contained_vertices_are_used, law_surface_is_watertight, on_border, surplus};
use crate::grid::{far, flat, origin, volume};
use crate::nets::{embeddable, embedded, graph, inside, is_sample, is_surface, law_surface_is_a_function, law_surface_is_made_of_answers, lemma_surface_of_wider_field, placed_from_its_cell, sampled, surface_cells, surface_indices, surface_nets, Around, Crossing, Embedding, Field, NO_VERTEX};
use crate::scalar::Scalar;
use crate::scan::in_box;
use crate::scatter::{is_bubble, Bubble};
use crate::surface::{law_indices_refer_to_vertices, law_no_more_vertices_than_cells, law_triangles_are_proper, proper_triangles};
use crate::wheel::{cap_terms, cheese_field, field_value, is_cylinder, is_field, is_largest, law_cap_terms_do_not_mix, law_carving_adds_nothing, law_field_is_a_function, law_field_is_the_largest_of_its_own_solids, measurable, measured, CapTerms, CheeseSpec, Measures};

verus! {

/// A mesh of the renderer. Nothing inside it is visible here.
#[verifier::external_type_specification]
#[verifier::external_body]
pub struct ExMesh(bevy::mesh::Mesh);

/// A point or a direction of the renderer's space. Its coordinates are not visible
/// here.
#[verifier::external_type_specification]
#[verifier::external_body]
pub struct ExVec3(bevy::math::Vec3);

/// A place on a texture. Its coordinates are not visible here.
#[verifier::external_type_specification]
#[verifier::external_body]
pub struct ExVec2(bevy::math::Vec2);

/// Whether a mesh has positions, normals and texture coordinates at all.
pub uninterp spec fn has_vertex_buffers(mesh: Mesh) -> bool;

/// The positions that a mesh holds, one for each vertex.
pub uninterp spec fn vertex_positions(mesh: Mesh) -> Seq<Vec3>;

/// The normals that a mesh holds, one for each vertex.
pub uninterp spec fn vertex_normals(mesh: Mesh) -> Seq<Vec3>;

/// The texture coordinates that a mesh holds, one for each vertex.
pub uninterp spec fn texture_coordinates(mesh: Mesh) -> Seq<Vec2>;

/// The indices of a mesh that is a triangle list: which vertex stands at which
/// corner of which triangle.
pub uninterp spec fn triangle_corners(mesh: Mesh) -> Seq<u32>;

/// Whether the indices of a mesh are read three by three, each three as a triangle
/// of its own.
pub uninterp spec fn is_triangle_list(mesh: Mesh) -> bool;

/// Whether both coordinates are zero.
pub uninterp spec fn is_zero(v: Vec2) -> bool;

/// Reads `bevy::math::Vec2::ZERO`. Trusted: both of its coordinates are zero.
#[verifier::external_body]
fn texture_origin() -> (r: Vec2)
    ensures
        is_zero(r),
{
    Vec2::ZERO
}

/// Calls `bevy::mesh::Mesh::new` for a triangle list that stays in both worlds,
/// `bevy::mesh::Mesh::with_inserted_attribute` on it for positions, normals and
/// texture coordinates, and `bevy::mesh::Mesh::with_inserted_indices`. Trusted: the
/// mesh is a triangle list, has the three attributes, and keeps each of the four lists
/// as it is, in its order, a vector as the array of its coordinates.
///
/// Nothing here panics: the vectors have the formats of the three attributes, and a
/// new mesh has not been extracted to the render world.
#[verifier::external_body]
fn triangle_list(
    positions: Vec<Vec3>,
    normals: Vec<Vec3>,
    uvs: Vec<Vec2>,
    indices: Vec<u32>,
) -> (mesh: Mesh)
    ensures
        is_triangle_list(mesh),
        has_vertex_buffers(mesh),
        vertex_positions(mesh) == positions@,
        vertex_normals(mesh) == normals@,
        texture_coordinates(mesh) == uvs@,
        triangle_corners(mesh) == indices@,
{
    Mesh::new(PrimitiveTopology::TriangleList, RenderAssetUsages::default())
        .with_inserted_attribute(Mesh::ATTRIBUTE_POSITION, positions)
        .with_inserted_attribute(Mesh::ATTRIBUTE_NORMAL, normals)
        .with_inserted_attribute(Mesh::ATTRIBUTE_UV_0, uvs)
        .with_inserted_indices(Indices::U32(indices))
}

/// Whether a mesh has texture coordinates for this many vertices, all of them zero.
pub open spec fn untextured(mesh: Mesh, count: int) -> bool {
    &&& texture_coordinates(mesh).len() == count
    &&& forall|v: int| 0 <= v < count ==> is_zero(#[trigger] texture_coordinates(mesh)[v])
}

/// Packs a surface into a mesh. The texture coordinates are all zero, for materials
/// that expect some.
fn pack(positions: Vec<Vec3>, normals: Vec<Vec3>, indices: Vec<u32>) -> (mesh: Mesh)
    ensures
        is_triangle_list(mesh),
        has_vertex_buffers(mesh),
        vertex_positions(mesh) == positions@,
        vertex_normals(mesh) == normals@,
        untextured(mesh, positions.len() as int),
        triangle_corners(mesh) == indices@,
{
    let mut uvs: Vec<Vec2> = Vec::new();
    for v in 0..positions.len()
        invariant
            uvs.len() == v,
            forall|n: int| 0 <= n < v ==> is_zero(#[trigger] uvs@[n]),
    {
        uvs.push(texture_origin());
    }
    triangle_list(positions, normals, uvs, indices)
}

/// The fields that a wheel may have under these measures.
pub open spec fn wheel_field<
    P,
    O: Fn(P) -> (Scalar, Scalar),
    J: Fn(CapTerms) -> Scalar,
    W: Fn(P) -> Scalar,
    S: Fn(P, Bubble) -> Scalar,
>(spec: CheeseSpec, measures: &Measures<O, J, W, S>) -> Field<P> {
    |p: P, value: Scalar| is_field(spec, measures, p, value)
}

/// Polygonizes a wheel and packs it into a mesh: the positions and normals of its
/// vertices, texture coordinates that are all zero, and its triangles.
pub fn build_cheese_mesh<
    O: Fn(Vec3) -> (Scalar, Scalar),
    J: Fn(CapTerms) -> Scalar,
    W: Fn(Vec3) -> Scalar,
    S: Fn(Vec3, Bubble) -> Scalar,
    C: Fn(usize, usize, usize) -> Vec3,
    V: Fn(&Vec<Crossing>) -> Vec3,
    A: Fn(Vec3) -> Around<Vec3>,
    G: Fn(Around<Scalar>) -> Vec3,
>(
    spec: &CheeseSpec,
    resolution: usize,
    measures: &Measures<O, J, W, S>,
    embedding: &Embedding<C, V, A, G>,
) -> (mesh: Mesh)
    requires
        volume(resolution + 1) <= usize::MAX,
        forall|p: Vec3| #[trigger] measurable(*spec, measures, p),
        embeddable(resolution, *embedding),
    ensures
        is_triangle_list(mesh),
        has_vertex_buffers(mesh),
        is_surface(
            wheel_field(*spec, measures),
            resolution,
            *embedding,
            vertex_positions(mesh),
            vertex_normals(mesh),
            triangle_corners(mesh),
        ),
        vertex_normals(mesh).len() == vertex_positions(mesh).len(),
        untextured(mesh, vertex_positions(mesh).len() as int),
        texture_coordinates(mesh).len() == vertex_positions(mesh).len(),
        forall|v: int|
            0 <= v < texture_coordinates(mesh).len() ==> is_zero(
                #[trigger] texture_coordinates(mesh)[v],
            ),
        volume(resolution as int) <= NO_VERTEX ==> proper_triangles(triangle_corners(mesh))
            && forall|n: int|
            0 <= n < triangle_corners(mesh).len() ==> #[trigger] triangle_corners(mesh)[n]
                < vertex_positions(mesh).len(),
{
    let field = |p: Vec3| -> (value: Scalar)
        requires
            measurable(*spec, measures, p),
        ensures
            is_field(*spec, measures, p, value),
        { cheese_field(spec, measures, p) };
    assert forall|p: Vec3| call_requires(field, (p,)) by {
        assert(measurable(*spec, measures, p));
    }
    let (positions, normals, indices) = surface_nets(field, resolution, embedding);
    proof {
        lemma_surface_of_wider_field(
            graph(field),
            wheel_field(*spec, measures),
            resolution,
            *embedding,
            positions@,
            normals@,
            indices@,
        );
        if volume(resolution as int) <= NO_VERTEX {
            law_buffers_agree(
                wheel_field(*spec, measures),
                resolution,
                *embedding,
                positions@,
                normals@,
                indices@,
            );
        }
    }
    pack(positions, normals, indices)
}

/// The same recipe gives the same wheel: where measures and embedding always answer
/// the same, two wheels with one spec have the same vertices, normals and triangles,
/// bit for bit.
pub proof fn law_same_spec_same_wheel<
    P,
    N,
    O: Fn(P) -> (Scalar, Scalar),
    J: Fn(CapTerms) -> Scalar,
    W: Fn(P) -> Scalar,
    S: Fn(P, Bubble) -> Scalar,
    C: Fn(usize, usize, usize) -> P,
    V: Fn(&Vec<Crossing>) -> P,
    A: Fn(P) -> Around<P>,
    G: Fn(Around<Scalar>) -> N,
>(
    spec: CheeseSpec,
    resolution: usize,
    measures: &Measures<O, J, W, S>,
    embedding: Embedding<C, V, A, G>,
    first: (Seq<P>, Seq<N>, Seq<u32>),
    second: (Seq<P>, Seq<N>, Seq<u32>),
)
    requires
        crate::wheel::definite(measures),
        crate::nets::definite(embedding),
        is_surface(
            wheel_field(spec, measures),
            resolution,
            embedding,
            first.0,
            first.1,
            first.2,
        ),
        is_surface(
            wheel_field(spec, measures),
            resolution,
            embedding,
            second.0,
            second.1,
            second.2,
        ),
    ensures
        first == second,
{
    let field = wheel_field(spec, measures);
    assert forall|p: P, x: Scalar, y: Scalar| #[trigger] field(p, x) && #[trigger] field(
        p,
        y,
    ) implies x == y by {
        law_field_is_a_function(spec, measures, p, x, y);
    }
    law_surface_is_a_function(field, resolution, embedding, first, second);
}

/// The buffers of a mesh agree: there are as many normals as positions, the indices
/// make whole triangles with three different corners each, and every index is that
/// of a vertex. The grid has no more cells than 32-bit numbers can tell apart.
pub proof fn law_buffers_agree<
    P,
    N,
    C: Fn(usize, usize, usize) -> P,
    V: Fn(&Vec<Crossing>) -> P,
    A: Fn(P) -> Around<P>,
    G: Fn(Around<Scalar>) -> N,
>(
    field: Field<P>,
    resolution: usize,
    embedding: Embedding<C, V, A, G>,
    positions: Seq<P>,
    normals: Seq<N>,
    indices: Seq<u32>,
)
    requires
        volume(resolution as int) <= NO_VERTEX,
        is_surface(field, resolution, embedding, positions, normals, indices),
    ensures
        positions.len() == normals.len(),
        positions.len() <= volume(resolution as int),
        proper_triangles(indices),
        forall|n: int| 0 <= n < indices.len() ==> #[trigger] indices[n] < positions.len(),
{
    let res = resolution as int;
    let samples = choose|samples: Seq<Scalar>| #[trigger]
        sampled(field, embedding.corner, resolution, samples) && embedded(
            field,
            samples,
            res,
            embedding,
            positions,
            normals,
        ) && indices == surface_indices(samples, res);
    law_no_more_vertices_than_cells(samples, res);
    law_triangles_are_proper(samples, res);
    law_indices_refer_to_vertices(samples, res);
}

/// Whether the corners on the border of a grid all lie beyond the rind or beyond a
/// cap of the whole cylinder, or right on it.
pub open spec fn boxed_in<
    P,
    O: Fn(P) -> (Scalar, Scalar),
    J,
    W,
    S,
    C: Fn(usize, usize, usize) -> P,
>(measures: &Measures<O, J, W, S>, corner: C, res: usize) -> bool {
    forall|i: usize, j: usize, k: usize, p: P, radial: Scalar, axial: Scalar|
        i <= res && j <= res && k <= res && on_border(res as int, i as int, j as int, k as int)
            && #[trigger] call_ensures(corner, (i, j, k), p) && #[trigger] call_ensures(
            measures.overshoot,
            (p,),
            (radial, axial),
        ) ==> !radial.not_a_number() && !axial.not_a_number() && !(radial.negative()
            && axial.negative())
}

/// Whether this is a number that is not negative.
pub open spec fn is_extent(s: Scalar) -> bool {
    !s.not_a_number() && s.place() >= 0
}

/// Whether joining terms without an interior part gives a distance that is not
/// negative.
pub open spec fn joins_outside<O, J: Fn(CapTerms) -> Scalar, W, S>(
    measures: &Measures<O, J, W, S>,
) -> bool {
    forall|terms: CapTerms, d: Scalar|
        terms.interior.place() == 0 && is_extent(terms.radial_overflow) && is_extent(
            terms.axial_overflow,
        ) && #[trigger] call_ensures(
            measures.join,
            (terms,),
            d,
        ) ==> is_extent(d)
}

/// Where the border lies beyond the cylinder, no border corner is inside the cheese.
proof fn lemma_border_is_outside<
    P,
    O: Fn(P) -> (Scalar, Scalar),
    J: Fn(CapTerms) -> Scalar,
    W: Fn(P) -> Scalar,
    S: Fn(P, Bubble) -> Scalar,
    C: Fn(usize, usize, usize) -> P,
>(
    spec: CheeseSpec,
    measures: &Measures<O, J, W, S>,
    corner: C,
    res: usize,
    i: usize,
    j: usize,
    k: usize,
    value: Scalar,
)
    requires
        boxed_in(measures, corner, res),
        joins_outside(measures),
        i <= res && j <= res && k <= res,
        on_border(res as int, i as int, j as int, k as int),
        is_sample(wheel_field(spec, measures), corner, i, j, k, value),
    ensures
        !value.negative(),
{
    let p = choose|p: P| #[trigger]
        call_ensures(corner, (i, j, k), p) && wheel_field(spec, measures)(p, value);
    assert(is_field(spec, measures, p, value));
    let (cylinder, wedge, spheres) = choose|
        cylinder: Scalar,
        wedge: Scalar,
        spheres: Seq<Scalar>,
    |
        measured(spec, measures, p, cylinder, wedge, spheres) && value == #[trigger] field_value(
            spec,
            cylinder,
            wedge,
            spheres,
        );
    assert(is_cylinder(measures, p, cylinder));
    let (radial, axial) = choose|radial: Scalar, axial: Scalar| #[trigger]
        call_ensures(measures.overshoot, (p,), (radial, axial)) && call_ensures(
            measures.join,
            (cap_terms(radial, axial),),
            cylinder,
        );
    law_cap_terms_do_not_mix(radial, axial);
    law_carving_adds_nothing(spec, cylinder, wedge, spheres);
}

/// The box does not clip the wheel: where the border of the grid lies beyond the rind
/// or a cap, the mesh is watertight, and every vertex stands in some triangle.
pub proof fn law_boxed_wheel_is_watertight<
    P,
    N,
    O: Fn(P) -> (Scalar, Scalar),
    J: Fn(CapTerms) -> Scalar,
    W: Fn(P) -> Scalar,
    S: Fn(P, Bubble) -> Scalar,
    C: Fn(usize, usize, usize) -> P,
    V: Fn(&Vec<Crossing>) -> P,
    A: Fn(P) -> Around<P>,
    G: Fn(Around<Scalar>) -> N,
>(
    spec: CheeseSpec,
    resolution: usize,
    measures: &Measures<O, J, W, S>,
    embedding: Embedding<C, V, A, G>,
    positions: Seq<P>,
    normals: Seq<N>,
    indices: Seq<u32>,
)
    requires
        volume(resolution as int) <= NO_VERTEX,
        boxed_in(measures, embedding.corner, resolution),
        joins_outside(measures),
        is_surface(
            wheel_field(spec, measures),
            resolution,
            embedding,
            positions,
            normals,
            indices,
        ),
    ensures
        forall|a: u32, b: u32| #[trigger] surplus(indices, a, b) == 0,
        forall|a: u32| a < positions.len() ==> #[trigger] indices.contains(a),
{
    let res = resolution as int;
    let field = wheel_field(spec, measures);
    let samples = choose|samples: Seq<Scalar>| #[trigger]
        sampled(field, embedding.corner, resolution, samples) && embedded(
            field,
            samples,
            res,
            embedding,
            positions,
            normals,
        ) && indices == surface_indices(samples, res);
    law_no_more_vertices_than_cells(samples, res);
    assert forall|i: int, j: int, k: int|
        in_box(origin(), far(res + 1), i, j, k) && on_border(res, i, j, k) implies #[trigger] inside(
        samples,
        res,
        i,
        j,
        k,
    ) == false by {
        let (x, y, z) = (i as usize, j as usize, k as usize);
        let value = samples[flat(res + 1, x as int, y as int, z as int)];
        assert(is_sample(field, embedding.corner, x, y, z, value));
        lemma_border_is_outside(
            spec,
            measures,
            embedding.corner,
            resolution,
            x,
            y,
            z,
            value,
        );
    }
    assert(contained(samples, res, false));
    assert forall|a: u32, b: u32| #[trigger] surplus(indices, a, b) == 0 by {
        law_surface_is_watertight(samples, res, false, a, b);
    }
    assert forall|a: u32| a < positions.len() implies #[trigger] indices.contains(a) by {
        let n = law_contained_vertices_are_used(samples, res, false, a);
        assert(indices[n] == a);
    }
}

/// The field that a wheel is meshed from is the field of its own spec.
pub proof fn law_wheel_is_meshed_from_its_own_field<
    P,
    O: Fn(P) -> (Scalar, Scalar),
    J: Fn(CapTerms) -> Scalar,
    W: Fn(P) -> Scalar,
    S: Fn(P, Bubble) -> Scalar,
>(spec: CheeseSpec, measures: &Measures<O, J, W, S>, p: P, value: Scalar)
    ensures
        wheel_field(spec, measures)(p, value) <==> is_field(spec, measures, p, value),
{
}

/// A mesh is that of the wheel its spec describes: it is stitched from samples that
/// are, at every grid corner, the largest of the distance to the cylinder and, turned
/// inside out, the distances to the slice of the wheel's own bite and to each bubble
/// that the wheel's own seed gives an index below its own hole count.
pub proof fn law_mesh_is_that_of_its_spec<
    P,
    N,
    O: Fn(P) -> (Scalar, Scalar),
    J: Fn(CapTerms) -> Scalar,
    W: Fn(P) -> Scalar,
    S: Fn(P, Bubble) -> Scalar,
    C: Fn(usize, usize, usize) -> P,
    V: Fn(&Vec<Crossing>) -> P,
    A: Fn(P) -> Around<P>,
    G: Fn(Around<Scalar>) -> N,
>(
    spec: CheeseSpec,
    resolution: usize,
    measures: &Measures<O, J, W, S>,
    embedding: Embedding<C, V, A, G>,
    positions: Seq<P>,
    normals: Seq<N>,
    indices: Seq<u32>,
) -> (samples: Seq<Scalar>)
    requires
        crate::wheel::definite(measures),
        crate::nets::definite(embedding),
        is_surface(
            wheel_field(spec, measures),
            resolution,
            embedding,
            positions,
            normals,
            indices,
        ),
    ensures
        samples.len() == (resolution + 1) * (resolution + 1) * (resolution + 1),
        indices == surface_indices(samples, resolution as int),
        positions.len() == surface_cells(samples, resolution as int).len(),
        forall|v: int|
            0 <= v < positions.len() ==> placed_from_its_cell(
                samples,
                resolution as int,
                surface_cells(samples, resolution as int)[v],
                embedding.place,
                #[trigger] positions[v],
            ),
        forall|i: usize, j: usize, k: usize, p: P|
            i <= resolution && j <= resolution && k <= resolution && #[trigger] call_ensures(
                embedding.corner,
                (i, j, k),
                p,
            ) ==> is_largest(
                spec,
                measures,
                p,
                samples[(i * (resolution + 1) + j) * (resolution + 1) + k],
            ),
        forall|i: usize, j: usize, k: usize, p: P, n: usize, b: Bubble, s: Scalar|
            i <= resolution && j <= resolution && k <= resolution && #[trigger] call_ensures(
                embedding.corner,
                (i, j, k),
                p,
            ) && n < spec.hole_count && #[trigger] is_bubble(spec.hole_seed, n, b)
                && #[trigger] call_ensures(measures.sphere, (p, b), s) && !s.not_a_number() ==> {
                let sample = samples[(i * (resolution + 1) + j) * (resolution + 1) + k];
                !sample.not_a_number() && sample.units() >= -s.units()
            },
{
    let field = wheel_field(spec, measures);
    let samples = law_surface_is_made_of_answers(
        field,
        resolution,
        embedding,
        positions,
        normals,
        indices,
    );
    assert forall|i: usize, j: usize, k: usize, p: P|
        i <= resolution && j <= resolution && k <= resolution && #[trigger] call_ensures(
            embedding.corner,
            (i, j, k),
            p,
        ) implies is_largest(
        spec,
        measures,
        p,
        samples[(i * (resolution + 1) + j) * (resolution + 1) + k],
    ) by {
        let value = samples[(i * (resolution + 1) + j) * (resolution + 1) + k];
        assert(field(p, value));
        law_field_is_the_largest_of_its_own_solids(spec, measures, p, value);
    }
    samples
}

} // verus!
