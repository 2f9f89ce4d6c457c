//! Surfaces are closed: triangles meet edge to edge and turn the same way.

use vstd::prelude::*;
use crate::grid::{far, grid_point, origin};
use crate::nets::{axis_indices, beside, corner_of, crosses, edge_end, edge_indices, first_edge, inside, mixed, number_at, quad_cells, quad_visit, surface_cells, surface_indices, Axis, EDGES, NO_VERTEX};
use crate::scalar::Scalar;
use crate::scan::{in_box, scan, scan_block, scan_plane, scan_row, Point, Visit};
use crate::sums::{lemma_sum_two, sum, sum_block, sum_plane, sum_row, Weight};
use crate::surface::{edge_axis, law_crossed_edge_adds_two_triangles, law_crossed_edge_has_four_vertices, law_indices_refer_to_vertices, law_mixed_cell_owns_a_vertex, law_vertex_has_one_cell, lemma_crossed_edge_uses_cell, lemma_edge_of_cell, lemma_mixed_cell_has_crossed_edge, lemma_number_is_rank};

verus! {

/// One side of a triangle, from `x` to `y`: 1 if it runs from `a` to `b`, -1 if
/// it runs from `b` to `a`, and 0 otherwise.
pub open spec fn side_surplus<T>(x: T, y: T, a: T, b: T) -> int {
    (if x == a && y == b {
        1int
    } else {
        0int
    }) - (if x == b && y == a {
        1int
    } else {
        0int
    })
}

/// The three sides of a triangle taken together.
pub open spec fn triangle_surplus<T>(x: T, y: T, z: T, a: T, b: T) -> int {
    side_surplus(x, y, a, b) + side_surplus(y, z, a, b) + side_surplus(z, x, a, b)
}

/// How many sides of the triangles in an index list run from `a` to `b`, less how
/// many run from `b` to `a`.
pub open spec fn surplus(indices: Seq<u32>, a: u32, b: u32) -> int
    decreases indices.len(),
{
    let n = indices.len() as int;
    if n < 3 {
        0
    } else {
        surplus(indices.take(n - 3), a, b) + triangle_surplus(
            indices[n - 3],
            indices[n - 2],
            indices[n - 1],
            a,
            b,
        )
    }
}

proof fn lemma_surplus_concat(x: Seq<u32>, y: Seq<u32>, a: u32, b: u32)
    requires
        y.len() % 3 == 0,
    ensures
        surplus(x + y, a, b) == surplus(x, a, b) + surplus(y, a, b),
    decreases y.len(),
{
    let n = y.len() as int;
    if n == 0 {
        assert(x + y =~= x);
    } else {
        lemma_surplus_concat(x, y.take(n - 3), a, b);
        assert((x + y).take(x.len() + n - 3) =~= x + y.take(n - 3));
    }
}

proof fn lemma_row_surplus(f: Visit<u32>, g: Weight, i: int, j: int, from: int, to: int, a: u32, b: u32)
    requires
        forall|k: int|
            from <= k < to ==> (#[trigger] f(i, j, k)).len() % 3 == 0 && g(i, j, k) == surplus(
                f(i, j, k),
                a,
                b,
            ),
    ensures
        scan_row(f, i, j, from, to).len() % 3 == 0,
        surplus(scan_row(f, i, j, from, to), a, b) == sum_row(g, i, j, from, to),
    decreases to - from,
{
    if from < to {
        lemma_row_surplus(f, g, i, j, from, to - 1, a, b);
        assert(f(i, j, to - 1).len() % 3 == 0);
        lemma_surplus_concat(scan_row(f, i, j, from, to - 1), f(i, j, to - 1), a, b);
    }
}

proof fn lemma_plane_surplus(
    f: Visit<u32>,
    g: Weight,
    i: int,
    from: int,
    to: int,
    k0: int,
    k1: int,
    a: u32,
    b: u32,
)
    requires
        forall|j: int, k: int|
            from <= j < to && k0 <= k < k1 ==> (#[trigger] f(i, j, k)).len() % 3 == 0 && g(i, j, k)
                == surplus(f(i, j, k), a, b),
    ensures
        scan_plane(f, i, from, to, k0, k1).len() % 3 == 0,
        surplus(scan_plane(f, i, from, to, k0, k1), a, b) == sum_plane(g, i, from, to, k0, k1),
    decreases to - from,
{
    if from < to {
        lemma_plane_surplus(f, g, i, from, to - 1, k0, k1, a, b);
        lemma_row_surplus(f, g, i, to - 1, k0, k1, a, b);
        lemma_surplus_concat(
            scan_plane(f, i, from, to - 1, k0, k1),
            scan_row(f, i, to - 1, k0, k1),
            a,
            b,
        );
    }
}

proof fn lemma_block_surplus(f: Visit<u32>, g: Weight, lo: Point, hi: Point, to: int, a: u32, b: u32)
    requires
        forall|i: int, j: int, k: int|
            lo.0 <= i < to && lo.1 <= j < hi.1 && lo.2 <= k < hi.2 ==> (#[trigger] f(
                i,
                j,
                k,
            )).len() % 3 == 0 && g(i, j, k) == surplus(f(i, j, k), a, b),
    ensures
        scan_block(f, lo, hi, to).len() % 3 == 0,
        surplus(scan_block(f, lo, hi, to), a, b) == sum_block(g, lo, hi, to),
    decreases to - lo.0,
{
    if lo.0 < to {
        lemma_block_surplus(f, g, lo, hi, to - 1, a, b);
        lemma_plane_surplus(f, g, to - 1, lo.1, hi.1, lo.2, hi.2, a, b);
        lemma_surplus_concat(
            scan_block(f, lo, hi, to - 1),
            scan_plane(f, to - 1, lo.1, hi.1, lo.2, hi.2),
            a,
            b,
        );
    }
}

/// Cells of the grid that own vertices have the same number only if they are the same.
proof fn lemma_numbers_tell_cells_apart(samples: Seq<Scalar>, res: int, p: Point, q: Point)
    requires
        0 <= res <= usize::MAX,
        surface_cells(samples, res).len() <= NO_VERTEX,
        in_box(origin(), far(res), p.0, p.1, p.2),
        in_box(origin(), far(res), q.0, q.1, q.2),
        mixed(samples, res, p.0, p.1, p.2),
        mixed(samples, res, q.0, q.1, q.2),
    ensures
        number_at(samples, res, p) == number_at(samples, res, q) <==> p == q,
{
    lemma_number_is_rank(samples, res, p.0, p.1, p.2);
    lemma_number_is_rank(samples, res, q.0, q.1, q.2);
    law_mixed_cell_owns_a_vertex(samples, res, p.0, p.1, p.2);
    law_mixed_cell_owns_a_vertex(samples, res, q.0, q.1, q.2);
    assert(grid_point(p.0, p.1, p.2) == grid_point(q.0, q.1, q.2) ==> p == q);
}

/// How the two triangles across an edge run between two cells.
pub open spec fn quad_surplus(cells: Seq<Point>, p: Point, q: Point) -> int {
    triangle_surplus(cells[0], cells[1], cells[2], p, q) + triangle_surplus(
        cells[3],
        cells[4],
        cells[5],
        p,
        q,
    )
}

/// What an edge contributes to the surplus between two cells.
pub open spec fn edge_surplus(
    samples: Seq<Scalar>,
    res: int,
    axis: Axis,
    i: int,
    j: int,
    k: int,
    p: Point,
    q: Point,
) -> int {
    if crosses(samples, res, axis, i, j, k) {
        quad_surplus(quad_cells(axis, i, j, k, inside(samples, res, i, j, k)), p, q)
    } else {
        0
    }
}

proof fn lemma_edge_surplus(
    samples: Seq<Scalar>,
    res: int,
    axis: Axis,
    i: int,
    j: int,
    k: int,
    p: Point,
    q: Point,
)
    requires
        0 <= res <= usize::MAX,
        surface_cells(samples, res).len() <= NO_VERTEX,
        in_box(first_edge(axis), far(res), i, j, k),
        in_box(origin(), far(res), p.0, p.1, p.2),
        in_box(origin(), far(res), q.0, q.1, q.2),
        mixed(samples, res, p.0, p.1, p.2),
        mixed(samples, res, q.0, q.1, q.2),
    ensures
        edge_indices(samples, res, axis, i, j, k).len() % 3 == 0,
        surplus(
            edge_indices(samples, res, axis, i, j, k),
            number_at(samples, res, p),
            number_at(samples, res, q),
        ) == edge_surplus(samples, res, axis, i, j, k, p, q),
{
    let added = edge_indices(samples, res, axis, i, j, k);
    if crosses(samples, res, axis, i, j, k) {
        law_crossed_edge_adds_two_triangles(samples, res, axis, i, j, k);
        let cells = quad_cells(axis, i, j, k, inside(samples, res, i, j, k));
        let np = number_at(samples, res, p);
        let nq = number_at(samples, res, q);
        assert forall|n: int| 0 <= n < 6 implies (added[n] == np <==> #[trigger] cells[n] == p) && (
        added[n] == nq <==> cells[n] == q) by {
            let c = cells[n];
            assert(c == beside(axis, i, j, k, 1, 1) || c == beside(axis, i, j, k, 0, 1) || c
                == beside(axis, i, j, k, 0, 0) || c == beside(axis, i, j, k, 1, 0));
            law_crossed_edge_has_four_vertices(samples, res, axis, i, j, k, 1, 1);
            law_crossed_edge_has_four_vertices(samples, res, axis, i, j, k, 0, 1);
            law_crossed_edge_has_four_vertices(samples, res, axis, i, j, k, 0, 0);
            law_crossed_edge_has_four_vertices(samples, res, axis, i, j, k, 1, 0);
            lemma_numbers_tell_cells_apart(samples, res, c, p);
            lemma_numbers_tell_cells_apart(samples, res, c, q);
            assert(added[n] == number_at(samples, res, c));
        }
        assert(surplus(added.take(3).take(0), np, nq) == 0);
        assert(surplus(added.take(3), np, nq) == triangle_surplus(
            added[0],
            added[1],
            added[2],
            np,
            nq,
        ));
        assert(cells[0] == cells[0] && cells[1] == cells[1] && cells[2] == cells[2] && cells[3]
            == cells[3] && cells[4] == cells[4] && cells[5] == cells[5]);
    } else {
        reveal(edge_indices);
    }
}

/// One of the two directions other than the given one.
pub open spec fn one_across(axis: Axis) -> Axis {
    match axis {
        Axis::X => Axis::Y,
        _ => Axis::X,
    }
}

/// The other of the two directions other than the given one.
pub open spec fn other_across(axis: Axis) -> Axis {
    match axis {
        Axis::Z => Axis::Y,
        _ => Axis::Z,
    }
}

/// The next point in a direction.
pub open spec fn next(axis: Axis, p: Point) -> Point {
    edge_end(axis, p.0, p.1, p.2)
}

/// Whether the edge in this direction that starts at a point has four cells around it.
pub open spec fn interior_edge(res: int, axis: Axis, p: Point) -> bool {
    in_box(first_edge(axis), far(res), p.0, p.1, p.2)
}

/// Whether all four edges of the face between two cells have four cells around
/// them. The face is given by its normal and its lowest corner.
pub open spec fn interior_face(res: int, normal: Axis, q: Point) -> bool {
    let s = one_across(normal);
    let t = other_across(normal);
    interior_edge(res, s, q) && interior_edge(res, s, next(t, q)) && interior_edge(res, t, q)
        && interior_edge(res, t, next(s, q))
}

/// Whether each of the four edges of a face has four cells around it, unless the
/// surface does not cross it.
pub open spec fn surrounded_face(samples: Seq<Scalar>, res: int, normal: Axis, q: Point) -> bool {
    let s = one_across(normal);
    let t = other_across(normal);
    &&& surrounded_edge(samples, res, s, q)
    &&& surrounded_edge(samples, res, s, next(t, q))
    &&& surrounded_edge(samples, res, t, q)
    &&& surrounded_edge(samples, res, t, next(s, q))
}

/// Whether an edge has four cells around it, unless the surface does not cross it.
pub open spec fn surrounded_edge(samples: Seq<Scalar>, res: int, axis: Axis, p: Point) -> bool {
    interior_edge(res, axis, p) || !crosses(samples, res, axis, p.0, p.1, p.2)
}

/// Only the edges of the face between two cells have triangles that run from one
/// to the other.
proof fn lemma_only_face_edges_run(normal: Axis, p: Point, axis: Axis, i: int, j: int, k: int, flag: bool)
    requires
        ({
            let q = next(normal, p);
            let s = one_across(normal);
            let t = other_across(normal);
            let at = (i, j, k);
            axis == normal || (axis == s && at != q && at != next(t, q)) || (axis == t && at != q
                && at != next(s, q))
        }),
    ensures
        quad_surplus(quad_cells(axis, i, j, k, flag), p, next(normal, p)) == 0,
{
    let cells = quad_cells(axis, i, j, k, flag);
    let a = beside(axis, i, j, k, 1, 1);
    let b = beside(axis, i, j, k, 0, 1);
    let c = beside(axis, i, j, k, 0, 0);
    let e = beside(axis, i, j, k, 1, 0);
    let q = next(normal, p);
    assert(side_surplus(a, b, p, q) == 0 && side_surplus(b, a, p, q) == 0);
    assert(side_surplus(b, c, p, q) == 0 && side_surplus(c, b, p, q) == 0);
    assert(side_surplus(c, e, p, q) == 0 && side_surplus(e, c, p, q) == 0);
    assert(side_surplus(e, a, p, q) == 0 && side_surplus(a, e, p, q) == 0);
    assert(side_surplus(a, c, p, q) == 0 && side_surplus(c, a, p, q) == 0);
}

/// Around a face, the triangles that run one way balance those that run the other.
proof fn lemma_face_balances(samples: Seq<Scalar>, res: int, normal: Axis, p: Point)
    ensures
        ({
            let q = next(normal, p);
            let s = one_across(normal);
            let t = other_across(normal);
            let sq = next(s, q);
            let tq = next(t, q);
            edge_surplus(samples, res, s, q.0, q.1, q.2, p, q) + edge_surplus(
                samples,
                res,
                s,
                tq.0,
                tq.1,
                tq.2,
                p,
                q,
            ) + edge_surplus(samples, res, t, q.0, q.1, q.2, p, q) + edge_surplus(
                samples,
                res,
                t,
                sq.0,
                sq.1,
                sq.2,
                p,
                q,
            ) == 0
        }),
{
    let q = next(normal, p);
    let s = one_across(normal);
    let t = other_across(normal);
    let sq = next(s, q);
    let tq = next(t, q);
    let stq = next(s, tq);
    assert(stq == next(t, sq));
    lemma_face_edge(normal, p, s, q, true);
    lemma_face_edge(normal, p, s, q, false);
    lemma_face_edge(normal, p, s, tq, true);
    lemma_face_edge(normal, p, s, tq, false);
    lemma_face_edge(normal, p, t, q, true);
    lemma_face_edge(normal, p, t, q, false);
    lemma_face_edge(normal, p, t, sq, true);
    lemma_face_edge(normal, p, t, sq, false);
}

/// How the triangles across one edge of a face run between the two cells at it.
proof fn lemma_face_edge(normal: Axis, p: Point, axis: Axis, at: Point, flag: bool)
    requires
        ({
            let q = next(normal, p);
            let s = one_across(normal);
            let t = other_across(normal);
            (axis == s && (at == q || at == next(t, q))) || (axis == t && (at == q || at == next(
                s,
                q,
            )))
        }),
    ensures
        ({
            let q = next(normal, p);
            let lower = at == q;
            let forward = (flag == ((axis == one_across(normal)) == lower)) == (normal != Axis::Y);
            quad_surplus(quad_cells(axis, at.0, at.1, at.2, flag), p, q) == if forward {
                1int
            } else {
                -1int
            }
        }),
{
}

/// The surplus of the triangles across all edges in one direction is the sum of
/// what the edges contribute.
proof fn lemma_axis_surplus(samples: Seq<Scalar>, res: int, axis: Axis, p: Point, q: Point)
    requires
        0 <= res <= usize::MAX,
        surface_cells(samples, res).len() <= NO_VERTEX,
        in_box(origin(), far(res), p.0, p.1, p.2),
        in_box(origin(), far(res), q.0, q.1, q.2),
        mixed(samples, res, p.0, p.1, p.2),
        mixed(samples, res, q.0, q.1, q.2),
    ensures
        axis_indices(samples, res, axis).len() % 3 == 0,
        surplus(
            axis_indices(samples, res, axis),
            number_at(samples, res, p),
            number_at(samples, res, q),
        ) == sum(edge_weight(samples, res, axis, p, q), first_edge(axis), far(res)),
{
    let f = quad_visit(samples, res, axis);
    let g = edge_weight(samples, res, axis, p, q);
    let a = number_at(samples, res, p);
    let b = number_at(samples, res, q);
    let lo = first_edge(axis);
    let hi = far(res);
    assert forall|i: int, j: int, k: int|
        lo.0 <= i < hi.0 && lo.1 <= j < hi.1 && lo.2 <= k < hi.2 implies (#[trigger] f(
        i,
        j,
        k,
    )).len() % 3 == 0 && g(i, j, k) == surplus(f(i, j, k), a, b) by {
        lemma_edge_surplus(samples, res, axis, i, j, k, p, q);
    }
    lemma_block_surplus(f, g, lo, hi, hi.0, a, b);
}

/// What the edges in one direction contribute to the surplus between two cells.
pub open spec fn edge_weight(samples: Seq<Scalar>, res: int, axis: Axis, p: Point, q: Point) -> Weight {
    |i: int, j: int, k: int| edge_surplus(samples, res, axis, i, j, k, p, q)
}

/// What the edges in one direction contribute between two cells with a common
/// face comes from the two that bound the face.
proof fn lemma_axis_sum(samples: Seq<Scalar>, res: int, normal: Axis, p: Point, axis: Axis)
    requires
        surrounded_face(samples, res, normal, next(normal, p)),
    ensures
        ({
            let q = next(normal, p);
            let s = one_across(normal);
            let t = other_across(normal);
            let other = if axis == s {
                next(t, q)
            } else {
                next(s, q)
            };
            sum(edge_weight(samples, res, axis, p, q), first_edge(axis), far(res)) == if axis
                == normal {
                0
            } else {
                edge_surplus(samples, res, axis, q.0, q.1, q.2, p, q) + edge_surplus(
                    samples,
                    res,
                    axis,
                    other.0,
                    other.1,
                    other.2,
                    p,
                    q,
                )
            }
        }),
{
    let q = next(normal, p);
    let s = one_across(normal);
    let t = other_across(normal);
    let other = if axis == s {
        next(t, q)
    } else {
        next(s, q)
    };
    let g = edge_weight(samples, res, axis, p, q);
    assert forall|i: int, j: int, k: int|
        in_box(first_edge(axis), far(res), i, j, k) && (axis == normal || ((i, j, k) != q && (
        i,
        j,
        k,
    ) != other)) implies #[trigger] g(i, j, k) == 0 by {
        lemma_only_face_edges_run(normal, p, axis, i, j, k, inside(samples, res, i, j, k));
    }
    lemma_sum_two(g, first_edge(axis), far(res), q, other);
}

/// Between two cells with a common face, as many triangles run one way as the other.
proof fn lemma_neighbours_balance(samples: Seq<Scalar>, res: int, normal: Axis, p: Point)
    requires
        0 <= res <= usize::MAX,
        surface_cells(samples, res).len() <= NO_VERTEX,
        in_box(origin(), far(res), p.0, p.1, p.2),
        mixed(samples, res, p.0, p.1, p.2),
        ({
            let q = next(normal, p);
            &&& in_box(origin(), far(res), q.0, q.1, q.2)
            &&& mixed(samples, res, q.0, q.1, q.2)
            &&& surrounded_face(samples, res, normal, q)
        }),
    ensures
        surplus(
            surface_indices(samples, res),
            number_at(samples, res, p),
            number_at(samples, res, next(normal, p)),
        ) == 0,
{
    let q = next(normal, p);
    lemma_whole_surplus(samples, res, p, q);
    lemma_axis_sum(samples, res, normal, p, Axis::X);
    lemma_axis_sum(samples, res, normal, p, Axis::Y);
    lemma_axis_sum(samples, res, normal, p, Axis::Z);
    lemma_face_balances(samples, res, normal, p);
}

/// The surplus of all triangles is what the edges in the three directions contribute.
proof fn lemma_whole_surplus(samples: Seq<Scalar>, res: int, p: Point, q: Point)
    requires
        0 <= res <= usize::MAX,
        surface_cells(samples, res).len() <= NO_VERTEX,
        in_box(origin(), far(res), p.0, p.1, p.2),
        in_box(origin(), far(res), q.0, q.1, q.2),
        mixed(samples, res, p.0, p.1, p.2),
        mixed(samples, res, q.0, q.1, q.2),
    ensures
        surplus(
            surface_indices(samples, res),
            number_at(samples, res, p),
            number_at(samples, res, q),
        ) == sum(edge_weight(samples, res, Axis::X, p, q), first_edge(Axis::X), far(res)) + sum(
            edge_weight(samples, res, Axis::Y, p, q),
            first_edge(Axis::Y),
            far(res),
        ) + sum(edge_weight(samples, res, Axis::Z, p, q), first_edge(Axis::Z), far(res)),
{
    let a = number_at(samples, res, p);
    let b = number_at(samples, res, q);
    let x = axis_indices(samples, res, Axis::X);
    let y = axis_indices(samples, res, Axis::Y);
    let z = axis_indices(samples, res, Axis::Z);
    lemma_axis_surplus(samples, res, Axis::X, p, q);
    lemma_axis_surplus(samples, res, Axis::Y, p, q);
    lemma_axis_surplus(samples, res, Axis::Z, p, q);
    lemma_surplus_concat(x, y, a, b);
    lemma_surplus_concat(x + y, z, a, b);
}

/// The surface is closed: where the face between two cells lies inside the grid,
/// as many triangles run from the vertex of one cell to that of the other as run
/// back. Triangles meet there edge to edge, and neighbours turn the same way.
pub proof fn law_surface_is_closed(samples: Seq<Scalar>, res: int, normal: Axis, p: Point)
    requires
        0 <= res <= usize::MAX,
        surface_cells(samples, res).len() <= NO_VERTEX,
        in_box(origin(), far(res), p.0, p.1, p.2),
        interior_face(res, normal, next(normal, p)),
        mixed(samples, res, p.0, p.1, p.2),
        ({
            let q = next(normal, p);
            mixed(samples, res, q.0, q.1, q.2)
        }),
    ensures
        surplus(
            surface_indices(samples, res),
            number_at(samples, res, p),
            number_at(samples, res, next(normal, p)),
        ) == 0,
{
    lemma_neighbours_balance(samples, res, normal, p);
}

/// Whether two cells have a common face.
pub open spec fn neighbours(p: Point, q: Point) -> bool {
    exists|normal: Axis| #[trigger] next(normal, p) == q || next(normal, q) == p
}

/// Across an edge, triangles run between cells with a common face only: each
/// diagonal is run both ways.
proof fn lemma_only_neighbours_run(axis: Axis, i: int, j: int, k: int, flag: bool, p: Point, q: Point)
    requires
        !neighbours(p, q),
    ensures
        quad_surplus(quad_cells(axis, i, j, k, flag), p, q) == 0,
{
    let a = beside(axis, i, j, k, 1, 1);
    let b = beside(axis, i, j, k, 0, 1);
    let c = beside(axis, i, j, k, 0, 0);
    let e = beside(axis, i, j, k, 1, 0);
    assert(next(Axis::X, p) != q && next(Axis::X, q) != p);
    assert(next(Axis::Y, p) != q && next(Axis::Y, q) != p);
    assert(next(Axis::Z, p) != q && next(Axis::Z, q) != p);
    assert(side_surplus(a, b, p, q) == 0 && side_surplus(b, a, p, q) == 0);
    assert(side_surplus(b, c, p, q) == 0 && side_surplus(c, b, p, q) == 0);
    assert(side_surplus(c, e, p, q) == 0 && side_surplus(e, c, p, q) == 0);
    assert(side_surplus(e, a, p, q) == 0 && side_surplus(a, e, p, q) == 0);
    assert(side_surplus(a, c, p, q) + side_surplus(c, a, p, q) == 0);
}

proof fn lemma_no_sum(samples: Seq<Scalar>, res: int, axis: Axis, p: Point, q: Point)
    requires
        !neighbours(p, q),
    ensures
        sum(edge_weight(samples, res, axis, p, q), first_edge(axis), far(res)) == 0,
{
    let g = edge_weight(samples, res, axis, p, q);
    assert forall|i: int, j: int, k: int| #[trigger] g(i, j, k) == 0 by {
        lemma_only_neighbours_run(axis, i, j, k, inside(samples, res, i, j, k), p, q);
    }
    let r = next(axis, p);
    lemma_sum_two(g, first_edge(axis), far(res), p, r);
    assert(g(p.0, p.1, p.2) == 0 && g(r.0, r.1, r.2) == 0);
}

/// Counted the other way round, the surplus is the same with the opposite sign.
proof fn lemma_surplus_turns(indices: Seq<u32>, a: u32, b: u32)
    ensures
        surplus(indices, b, a) == -surplus(indices, a, b),
    decreases indices.len(),
{
    if indices.len() >= 3 {
        lemma_surplus_turns(indices.take(indices.len() - 3), a, b);
    }
}

/// No triangle runs to or from a number that is not listed.
proof fn lemma_unlisted_surplus(indices: Seq<u32>, a: u32, b: u32)
    requires
        forall|n: int| 0 <= n < indices.len() ==> #[trigger] indices[n] != a,
    ensures
        surplus(indices, a, b) == 0,
    decreases indices.len(),
{
    let n = indices.len() as int;
    if n >= 3 {
        let fewer = indices.take(n - 3);
        assert forall|m: int| 0 <= m < fewer.len() implies #[trigger] fewer[m] != a by {
            assert(fewer[m] == indices[m]);
        }
        lemma_unlisted_surplus(fewer, a, b);
        assert(indices[n - 3] != a && indices[n - 2] != a && indices[n - 1] != a);
    }
}

/// Whether a grid corner lies on the border of the grid.
pub open spec fn on_border(res: int, i: int, j: int, k: int) -> bool {
    i == 0 || i == res || j == 0 || j == res || k == 0 || k == res
}

/// Whether the surface stays within the grid: the corners on the border are all
/// outside, or all inside.
pub open spec fn contained(samples: Seq<Scalar>, res: int, sign: bool) -> bool {
    forall|i: int, j: int, k: int|
        in_box(origin(), far(res + 1), i, j, k) && on_border(res, i, j, k) ==> #[trigger] inside(
            samples,
            res,
            i,
            j,
            k,
        ) == sign
}

/// A surface that stays within the grid crosses interior edges only.
proof fn lemma_contained_edge(samples: Seq<Scalar>, res: int, sign: bool, axis: Axis, p: Point)
    requires
        contained(samples, res, sign),
        in_box(origin(), far(res + 1), p.0, p.1, p.2),
        ({
            let end = next(axis, p);
            in_box(origin(), far(res + 1), end.0, end.1, end.2)
        }),
    ensures
        surrounded_edge(samples, res, axis, p),
{
    let end = next(axis, p);
    if !interior_edge(res, axis, p) {
        assert(inside(samples, res, p.0, p.1, p.2) == sign);
        assert(inside(samples, res, end.0, end.1, end.2) == sign);
    }
}

/// The surface is watertight: where it stays within the grid, as many triangles run
/// from any vertex to any other as run back. No triangle has a loose side, and
/// neighbours turn the same way.
pub proof fn law_surface_is_watertight(samples: Seq<Scalar>, res: int, sign: bool, a: u32, b: u32)
    requires
        0 <= res <= usize::MAX,
        surface_cells(samples, res).len() <= NO_VERTEX,
        contained(samples, res, sign),
    ensures
        surplus(surface_indices(samples, res), a, b) == 0,
{
    let indices = surface_indices(samples, res);
    let cells = surface_cells(samples, res);
    law_indices_refer_to_vertices(samples, res);
    if a >= cells.len() {
        lemma_unlisted_surplus(indices, a, b);
    } else if b >= cells.len() {
        lemma_unlisted_surplus(indices, b, a);
        lemma_surplus_turns(indices, b, a);
    } else {
        let p = lemma_cell_of(samples, res, a);
        let q = lemma_cell_of(samples, res, b);
        if neighbours(p, q) {
            let normal = choose|normal: Axis| #[trigger] next(normal, p) == q || next(normal, q) == p;
            if next(normal, p) == q {
                lemma_contained_neighbours(samples, res, sign, normal, p);
            } else {
                lemma_contained_neighbours(samples, res, sign, normal, q);
                lemma_surplus_turns(indices, b, a);
            }
        } else {
            lemma_whole_surplus(samples, res, p, q);
            lemma_no_sum(samples, res, Axis::X, p, q);
            lemma_no_sum(samples, res, Axis::Y, p, q);
            lemma_no_sum(samples, res, Axis::Z, p, q);
        }
    }
}

/// The cell that owns a vertex.
proof fn lemma_cell_of(samples: Seq<Scalar>, res: int, a: u32) -> (p: Point)
    requires
        0 <= res <= usize::MAX,
        a < surface_cells(samples, res).len() <= NO_VERTEX,
    ensures
        in_box(origin(), far(res), p.0, p.1, p.2),
        mixed(samples, res, p.0, p.1, p.2),
        number_at(samples, res, p) == a,
{
    let c = surface_cells(samples, res)[a as int];
    law_vertex_has_one_cell(samples, res, a as int);
    lemma_number_is_rank(samples, res, c.i as int, c.j as int, c.k as int);
    (c.i as int, c.j as int, c.k as int)
}

proof fn lemma_contained_neighbours(samples: Seq<Scalar>, res: int, sign: bool, normal: Axis, p: Point)
    requires
        0 <= res <= usize::MAX,
        surface_cells(samples, res).len() <= NO_VERTEX,
        contained(samples, res, sign),
        in_box(origin(), far(res), p.0, p.1, p.2),
        mixed(samples, res, p.0, p.1, p.2),
        ({
            let q = next(normal, p);
            in_box(origin(), far(res), q.0, q.1, q.2) && mixed(samples, res, q.0, q.1, q.2)
        }),
    ensures
        surplus(
            surface_indices(samples, res),
            number_at(samples, res, p),
            number_at(samples, res, next(normal, p)),
        ) == 0,
{
    let q = next(normal, p);
    let s = one_across(normal);
    let t = other_across(normal);
    lemma_contained_edge(samples, res, sign, s, q);
    lemma_contained_edge(samples, res, sign, s, next(t, q));
    lemma_contained_edge(samples, res, sign, t, q);
    lemma_contained_edge(samples, res, sign, t, next(s, q));
    lemma_neighbours_balance(samples, res, normal, p);
}

/// No vertex is left over: where the surface stays within the grid, every vertex
/// stands in some triangle.
pub proof fn law_contained_vertices_are_used(samples: Seq<Scalar>, res: int, sign: bool, a: u32) -> (n: int)
    requires
        0 <= res <= usize::MAX,
        a < surface_cells(samples, res).len() <= NO_VERTEX,
        contained(samples, res, sign),
    ensures
        0 <= n < surface_indices(samples, res).len(),
        surface_indices(samples, res)[n] == a,
{
    let p = lemma_cell_of(samples, res, a);
    let e = lemma_mixed_cell_has_crossed_edge(samples, res, p.0, p.1, p.2);
    lemma_edge_of_cell(samples, res, p.0, p.1, p.2, e);
    let s = corner_of(p.0, p.1, p.2, EDGES[e].0 as int);
    lemma_contained_edge(samples, res, sign, edge_axis(e), s);
    lemma_crossed_edge_uses_cell(samples, res, p.0, p.1, p.2, e)
}

} // verus!
