//! What holds of every surface net: its vertices, its triangles, and the way
//! they hang together.

use vstd::prelude::*;
use crate::grid::{far, grid_point, origin, volume, GridPoint};
use crate::nets::{all_numbered, axis_indices, beside, cell_visit, corner_inside, corner_of, crosses, edge_crossed, edge_end, edge_indices, first_edge, inside, mixed, number_at, numbers_at, quad_cells, quad_visit, rank, surface_cells, surface_indices, vertex_number, Axis, EDGES, NO_VERTEX};
use crate::scalar::Scalar;
use crate::scan::{comes_before, in_box, joins, lemma_scan_all, lemma_scan_at_most, lemma_scan_goes_on, lemma_scan_holds_visit, lemma_scan_len, lemma_scan_related, lemma_scan_source, scan, scan_before, Point, Visit};

verus! {

/// Each cell that the surface passes through owns one vertex, the one at its rank.
pub proof fn law_mixed_cell_owns_a_vertex(samples: Seq<Scalar>, res: int, i: int, j: int, k: int)
    requires
        in_box(origin(), far(res), i, j, k),
        mixed(samples, res, i, j, k),
    ensures
        0 <= rank(samples, res, i, j, k) < surface_cells(samples, res).len(),
        surface_cells(samples, res)[rank(samples, res, i, j, k)] == grid_point(i, j, k),
{
    let visit = cell_visit(samples, res);
    lemma_scan_holds_visit(visit, origin(), far(res), i, j, k);
    let before = scan_before(visit, origin(), far(res), i, j, k);
    assert((before + visit(i, j, k))[before.len() as int] == grid_point(i, j, k));
}

/// Each vertex belongs to one cell, which the surface passes through and which
/// owns no other vertex.
pub proof fn law_vertex_has_one_cell(samples: Seq<Scalar>, res: int, v: int)
    requires
        0 <= res <= usize::MAX,
        0 <= v < surface_cells(samples, res).len(),
    ensures
        ({
            let c = surface_cells(samples, res)[v];
            &&& in_box(origin(), far(res), c.i as int, c.j as int, c.k as int)
            &&& mixed(samples, res, c.i as int, c.j as int, c.k as int)
            &&& rank(samples, res, c.i as int, c.j as int, c.k as int) == v
        }),
{
    let visit = cell_visit(samples, res);
    let at = lemma_scan_source(visit, origin(), far(res), v);
    assert(visit(at.0, at.1, at.2).len() <= 1);
}

/// The four cells around an interior edge that the surface crosses are cells of
/// the grid that the surface passes through, so each of them owns a vertex.
pub proof fn law_crossed_edge_has_four_vertices(
    samples: Seq<Scalar>,
    res: int,
    axis: Axis,
    i: int,
    j: int,
    k: int,
    u: int,
    v: int,
)
    requires
        in_box(first_edge(axis), far(res), i, j, k),
        crosses(samples, res, axis, i, j, k),
        0 <= u <= 1,
        0 <= v <= 1,
    ensures
        ({
            let p = beside(axis, i, j, k, u, v);
            in_box(origin(), far(res), p.0, p.1, p.2) && mixed(samples, res, p.0, p.1, p.2)
        }),
{
    reveal(mixed);
    let p = beside(axis, i, j, k, u, v);
    let end = edge_end(axis, i, j, k);
    let (s, e) = match axis {
        Axis::X => (2 * u + 4 * v, 1 + 2 * u + 4 * v),
        Axis::Y => (u + 4 * v, u + 2 + 4 * v),
        Axis::Z => (u + 2 * v, u + 2 * v + 4),
    };
    assert((u == 0 || u == 1) && (v == 0 || v == 1));
    assert(corner_of(p.0, p.1, p.2, s) == (i, j, k));
    assert(corner_of(p.0, p.1, p.2, e) == end);
    assert(corner_inside(samples, res, p.0, p.1, p.2, s) == inside(samples, res, i, j, k));
    assert(corner_inside(samples, res, p.0, p.1, p.2, e) == inside(
        samples,
        res,
        end.0,
        end.1,
        end.2,
    ));
}

/// Where there are no more vertices than 32-bit numbers can tell apart, a cell's
/// number is its rank.
pub(crate) proof fn lemma_number_is_rank(samples: Seq<Scalar>, res: int, i: int, j: int, k: int)
    requires
        in_box(origin(), far(res), i, j, k),
        mixed(samples, res, i, j, k),
        surface_cells(samples, res).len() <= NO_VERTEX,
    ensures
        vertex_number(samples, res, i, j, k) == rank(samples, res, i, j, k),
        vertex_number(samples, res, i, j, k) < surface_cells(samples, res).len(),
{
    reveal(vertex_number);
    law_mixed_cell_owns_a_vertex(samples, res, i, j, k);
}

/// The numbers of two different cells around a crossed edge differ.
proof fn lemma_numbers_differ(
    samples: Seq<Scalar>,
    res: int,
    axis: Axis,
    i: int,
    j: int,
    k: int,
    u: int,
    v: int,
    x: int,
    y: int,
)
    requires
        0 <= res <= usize::MAX,
        surface_cells(samples, res).len() <= NO_VERTEX,
        in_box(first_edge(axis), far(res), i, j, k),
        crosses(samples, res, axis, i, j, k),
        0 <= u <= 1,
        0 <= v <= 1,
        0 <= x <= 1,
        0 <= y <= 1,
        u != x || v != y,
    ensures
        number_at(samples, res, beside(axis, i, j, k, u, v)) != NO_VERTEX,
        number_at(samples, res, beside(axis, i, j, k, u, v)) != number_at(
            samples,
            res,
            beside(axis, i, j, k, x, y),
        ),
{
    let p = beside(axis, i, j, k, u, v);
    let q = beside(axis, i, j, k, x, y);
    law_crossed_edge_has_four_vertices(samples, res, axis, i, j, k, u, v);
    law_crossed_edge_has_four_vertices(samples, res, axis, i, j, k, x, y);
    lemma_number_is_rank(samples, res, p.0, p.1, p.2);
    lemma_number_is_rank(samples, res, q.0, q.1, q.2);
    law_mixed_cell_owns_a_vertex(samples, res, p.0, p.1, p.2);
    law_mixed_cell_owns_a_vertex(samples, res, q.0, q.1, q.2);
    assert(grid_point(p.0, p.1, p.2) != grid_point(q.0, q.1, q.2));
}

/// An interior edge that the surface crosses never lacks a vertex: it always adds
/// its two triangles, between the four different vertices of the cells around it.
pub proof fn law_crossed_edge_adds_two_triangles(
    samples: Seq<Scalar>,
    res: int,
    axis: Axis,
    i: int,
    j: int,
    k: int,
)
    requires
        0 <= res <= usize::MAX,
        surface_cells(samples, res).len() <= NO_VERTEX,
        in_box(first_edge(axis), far(res), i, j, k),
        crosses(samples, res, axis, i, j, k),
    ensures
        edge_indices(samples, res, axis, i, j, k) == numbers_at(
            samples,
            res,
            quad_cells(axis, i, j, k, inside(samples, res, i, j, k)),
        ),
        edge_indices(samples, res, axis, i, j, k).len() == 6,
        forall|u: int, v: int, x: int, y: int|
            0 <= u <= 1 && 0 <= v <= 1 && 0 <= x <= 1 && 0 <= y <= 1 && (u != x || v != y)
                ==> number_at(samples, res, #[trigger] beside(axis, i, j, k, u, v)) != number_at(
                samples,
                res,
                #[trigger] beside(axis, i, j, k, x, y),
            ),
{
    assert(all_numbered(samples, res, axis, i, j, k)) by {
        assert forall|u: int, v: int| 0 <= u <= 1 && 0 <= v <= 1 implies number_at(
            samples,
            res,
            #[trigger] beside(axis, i, j, k, u, v),
        ) != NO_VERTEX by {
            lemma_numbers_differ(samples, res, axis, i, j, k, u, v, 1 - u, v);
        }
    }
    reveal(edge_indices);
    assert forall|u: int, v: int, x: int, y: int|
        0 <= u <= 1 && 0 <= v <= 1 && 0 <= x <= 1 && 0 <= y <= 1 && (u != x || v != y) implies
        number_at(samples, res, #[trigger] beside(axis, i, j, k, u, v)) != number_at(
        samples,
        res,
        #[trigger] beside(axis, i, j, k, x, y),
    ) by {
        lemma_numbers_differ(samples, res, axis, i, j, k, u, v, x, y);
    }
}

/// A crossed edge yields itself.
pub open spec fn crossed_visit(samples: Seq<Scalar>, res: int, axis: Axis) -> Visit<GridPoint> {
    |i: int, j: int, k: int|
        if crosses(samples, res, axis, i, j, k) {
            seq![grid_point(i, j, k)]
        } else {
            Seq::empty()
        }
}

/// The interior edges in one direction that the surface crosses.
pub open spec fn crossed_edges(samples: Seq<Scalar>, res: int, axis: Axis) -> Seq<GridPoint> {
    scan(crossed_visit(samples, res, axis), first_edge(axis), far(res))
}

proof fn lemma_axis_index_count(samples: Seq<Scalar>, res: int, axis: Axis)
    requires
        0 <= res <= usize::MAX,
        surface_cells(samples, res).len() <= NO_VERTEX,
    ensures
        axis_indices(samples, res, axis).len() == 6 * crossed_edges(samples, res, axis).len(),
{
    let f = quad_visit(samples, res, axis);
    let g = crossed_visit(samples, res, axis);
    assert forall|i: int, j: int, k: int|
        in_box(first_edge(axis), far(res), i, j, k) implies (#[trigger] f(i, j, k)).len() == 6 * g(
        i,
        j,
        k,
    ).len() by {
        if crosses(samples, res, axis, i, j, k) {
            law_crossed_edge_adds_two_triangles(samples, res, axis, i, j, k);
        } else {
            reveal(edge_indices);
        }
    }
    lemma_scan_len(f, g, first_edge(axis), far(res), 6);
}

/// There are two triangles for each interior edge that the surface crosses, and
/// no others.
pub proof fn law_two_triangles_for_each_crossed_edge(samples: Seq<Scalar>, res: int)
    requires
        0 <= res <= usize::MAX,
        surface_cells(samples, res).len() <= NO_VERTEX,
    ensures
        surface_indices(samples, res).len() == 6 * (crossed_edges(samples, res, Axis::X).len()
            + crossed_edges(samples, res, Axis::Y).len() + crossed_edges(
            samples,
            res,
            Axis::Z,
        ).len()),
{
    lemma_axis_index_count(samples, res, Axis::X);
    lemma_axis_index_count(samples, res, Axis::Y);
    lemma_axis_index_count(samples, res, Axis::Z);
}

proof fn lemma_axis_indices_in_range(samples: Seq<Scalar>, res: int, axis: Axis)
    requires
        0 <= res <= usize::MAX,
        surface_cells(samples, res).len() <= NO_VERTEX,
    ensures
        forall|n: int|
            0 <= n < axis_indices(samples, res, axis).len() ==> #[trigger] axis_indices(
                samples,
                res,
                axis,
            )[n] < surface_cells(samples, res).len(),
{
    let f = quad_visit(samples, res, axis);
    let p = |number: u32| number < surface_cells(samples, res).len();
    assert forall|i: int, j: int, k: int, n: int|
        in_box(first_edge(axis), far(res), i, j, k) && 0 <= n < f(i, j, k).len() implies p(
        #[trigger] f(i, j, k)[n],
    ) by {
        reveal(edge_indices);
        let cells = quad_cells(axis, i, j, k, inside(samples, res, i, j, k));
        let a = beside(axis, i, j, k, 1, 1);
        let b = beside(axis, i, j, k, 0, 1);
        let c = beside(axis, i, j, k, 0, 0);
        let e = beside(axis, i, j, k, 1, 0);
        law_crossed_edge_has_four_vertices(samples, res, axis, i, j, k, 1, 1);
        law_crossed_edge_has_four_vertices(samples, res, axis, i, j, k, 0, 1);
        law_crossed_edge_has_four_vertices(samples, res, axis, i, j, k, 0, 0);
        law_crossed_edge_has_four_vertices(samples, res, axis, i, j, k, 1, 0);
        lemma_number_is_rank(samples, res, a.0, a.1, a.2);
        lemma_number_is_rank(samples, res, b.0, b.1, b.2);
        lemma_number_is_rank(samples, res, c.0, c.1, c.2);
        lemma_number_is_rank(samples, res, e.0, e.1, e.2);
        assert(f(i, j, k)[n] == number_at(samples, res, cells[n]));
        assert(cells[n] == a || cells[n] == b || cells[n] == c || cells[n] == e);
    }
    lemma_scan_all(f, first_edge(axis), far(res), p);
}

/// Every number in the index list is the number of a vertex.
pub proof fn law_indices_refer_to_vertices(samples: Seq<Scalar>, res: int)
    requires
        0 <= res <= usize::MAX,
        surface_cells(samples, res).len() <= NO_VERTEX,
    ensures
        forall|n: int|
            0 <= n < surface_indices(samples, res).len() ==> #[trigger] surface_indices(
                samples,
                res,
            )[n] < surface_cells(samples, res).len(),
{
    lemma_axis_indices_in_range(samples, res, Axis::X);
    lemma_axis_indices_in_range(samples, res, Axis::Y);
    lemma_axis_indices_in_range(samples, res, Axis::Z);
    let x = axis_indices(samples, res, Axis::X);
    let y = axis_indices(samples, res, Axis::Y);
    let z = axis_indices(samples, res, Axis::Z);
    assert forall|n: int| 0 <= n < surface_indices(samples, res).len() implies
        #[trigger] surface_indices(samples, res)[n] < surface_cells(samples, res).len() by {
        if n < x.len() {
            assert(surface_indices(samples, res)[n] == x[n]);
        } else if n < x.len() + y.len() {
            assert(surface_indices(samples, res)[n] == y[n - x.len()]);
        } else {
            assert(surface_indices(samples, res)[n] == z[n - x.len() - y.len()]);
        }
    }
}

/// The two triangles across a crossed edge stand in the index list, one number
/// after the other.
pub proof fn law_triangles_are_listed(
    samples: Seq<Scalar>,
    res: int,
    axis: Axis,
    i: int,
    j: int,
    k: int,
) -> (start: int)
    requires
        in_box(first_edge(axis), far(res), i, j, k),
    ensures
        0 <= start <= start + edge_indices(samples, res, axis, i, j, k).len()
            <= surface_indices(samples, res).len(),
        surface_indices(samples, res).subrange(
            start,
            start + edge_indices(samples, res, axis, i, j, k).len(),
        ) == edge_indices(samples, res, axis, i, j, k),
{
    let visit = quad_visit(samples, res, axis);
    let added = edge_indices(samples, res, axis, i, j, k);
    lemma_scan_holds_visit(visit, first_edge(axis), far(res), i, j, k);
    let before = scan_before(visit, first_edge(axis), far(res), i, j, k);
    let part = axis_indices(samples, res, axis);
    assert forall|n: int| 0 <= n < added.len() implies part[before.len() + n] == added[n] by {
        assert((before + added)[before.len() + n] == added[n]);
    }
    let x = axis_indices(samples, res, Axis::X);
    let y = axis_indices(samples, res, Axis::Y);
    let offset: nat = match axis {
        Axis::X => 0,
        Axis::Y => x.len(),
        Axis::Z => x.len() + y.len(),
    };
    let start: int = (offset + before.len()) as int;
    assert forall|n: int| 0 <= n < added.len() implies surface_indices(samples, res)[start + n]
        == added[n] by {
        assert(part[before.len() + n] == added[n]);
    }
    assert(surface_indices(samples, res).subrange(start, start + added.len()) =~= added);
    start
}

/// A cell that the surface passes through has an edge that the surface crosses.
pub(crate) proof fn lemma_mixed_cell_has_crossed_edge(samples: Seq<Scalar>, res: int, i: int, j: int, k: int) -> (e: int)
    requires
        mixed(samples, res, i, j, k),
    ensures
        0 <= e < 12,
        edge_crossed(samples, res, i, j, k, e),
{
    reveal(mixed);
    if forall|e: int| 0 <= e < 12 ==> !#[trigger] edge_crossed(samples, res, i, j, k, e) {
        assert(!edge_crossed(samples, res, i, j, k, 0));
        assert(!edge_crossed(samples, res, i, j, k, 1));
        assert(!edge_crossed(samples, res, i, j, k, 2));
        assert(!edge_crossed(samples, res, i, j, k, 3));
        assert(!edge_crossed(samples, res, i, j, k, 4));
        assert(!edge_crossed(samples, res, i, j, k, 5));
        assert(!edge_crossed(samples, res, i, j, k, 6));
        assert(!edge_crossed(samples, res, i, j, k, 7));
        assert(!edge_crossed(samples, res, i, j, k, 8));
        assert(!edge_crossed(samples, res, i, j, k, 9));
        assert(!edge_crossed(samples, res, i, j, k, 10));
        assert(!edge_crossed(samples, res, i, j, k, 11));
        assert(false);
    }
    choose|e: int| 0 <= e < 12 && #[trigger] edge_crossed(samples, res, i, j, k, e)
}

/// The direction of edge `e` of a cell.
pub open spec fn edge_axis(e: int) -> Axis {
    if e < 4 {
        Axis::X
    } else if e < 8 {
        Axis::Y
    } else {
        Axis::Z
    }
}

/// Edge `e` of a cell as an edge of the grid: its lower corner, and its upper one.
pub(crate) proof fn lemma_edge_of_cell(samples: Seq<Scalar>, res: int, i: int, j: int, k: int, e: int)
    requires
        0 <= e < 12,
    ensures
        ({
            let s = corner_of(i, j, k, EDGES[e].0 as int);
            let end = edge_end(edge_axis(e), s.0, s.1, s.2);
            &&& end == corner_of(i, j, k, EDGES[e].1 as int)
            &&& i <= s.0 <= end.0 <= i + 1
            &&& j <= s.1 <= end.1 <= j + 1
            &&& k <= s.2 <= end.2 <= k + 1
            &&& edge_crossed(samples, res, i, j, k, e) <==> crosses(
                samples,
                res,
                edge_axis(e),
                s.0,
                s.1,
                s.2,
            )
        }),
{
    assert(e == 0 || e == 1 || e == 2 || e == 3 || e == 4 || e == 5 || e == 6 || e == 7 || e == 8
        || e == 9 || e == 10 || e == 11);
}

/// The triangles across an interior edge that the surface crosses use the vertices
/// of all cells that have the edge.
pub(crate) proof fn lemma_crossed_edge_uses_cell(
    samples: Seq<Scalar>,
    res: int,
    i: int,
    j: int,
    k: int,
    e: int,
) -> (n: int)
    requires
        0 <= res <= usize::MAX,
        surface_cells(samples, res).len() <= NO_VERTEX,
        0 <= e < 12,
        edge_crossed(samples, res, i, j, k, e),
        ({
            let s = corner_of(i, j, k, EDGES[e].0 as int);
            in_box(first_edge(edge_axis(e)), far(res), s.0, s.1, s.2)
        }),
    ensures
        0 <= n < surface_indices(samples, res).len(),
        surface_indices(samples, res)[n] == vertex_number(samples, res, i, j, k),
{
    let s = corner_of(i, j, k, EDGES[e].0 as int);
    let axis = edge_axis(e);
    lemma_edge_of_cell(samples, res, i, j, k, e);
    assert(e == 0 || e == 1 || e == 2 || e == 3 || e == 4 || e == 5 || e == 6 || e == 7 || e == 8
        || e == 9 || e == 10 || e == 11);
    law_crossed_edge_adds_two_triangles(samples, res, axis, s.0, s.1, s.2);
    let start = law_triangles_are_listed(samples, res, axis, s.0, s.1, s.2);
    let cells = quad_cells(axis, s.0, s.1, s.2, inside(samples, res, s.0, s.1, s.2));
    let m = if cells[0] == (i, j, k) {
        0
    } else if cells[1] == (i, j, k) {
        1
    } else if cells[2] == (i, j, k) {
        2
    } else if cells[4] == (i, j, k) {
        4
    } else {
        5int
    };
    assert(cells[m] == (i, j, k));
    let listed = edge_indices(samples, res, axis, s.0, s.1, s.2);
    assert(listed[m] == vertex_number(samples, res, i, j, k));
    assert(surface_indices(samples, res).subrange(start, start + 6)[m] == listed[m]);
    start + m
}

/// No inner vertex is left over: each cell that the surface passes through and that
/// does not touch the border of the grid has its vertex in some triangle.
pub proof fn law_inner_vertices_are_used(samples: Seq<Scalar>, res: int, i: int, j: int, k: int) -> (n: int)
    requires
        0 <= res <= usize::MAX,
        surface_cells(samples, res).len() <= NO_VERTEX,
        in_box((1, 1, 1), far(res - 1), i, j, k),
        mixed(samples, res, i, j, k),
    ensures
        0 <= n < surface_indices(samples, res).len(),
        surface_indices(samples, res)[n] == vertex_number(samples, res, i, j, k),
{
    let e = lemma_mixed_cell_has_crossed_edge(samples, res, i, j, k);
    lemma_edge_of_cell(samples, res, i, j, k, e);
    lemma_crossed_edge_uses_cell(samples, res, i, j, k, e)
}

/// The cross product of the two sides of a triangle that leave its first corner:
/// the direction it faces, its corners being seen counterclockwise from there.
pub open spec fn facing(p: Point, q: Point, r: Point) -> Point {
    let (ax, ay, az) = (q.0 - p.0, q.1 - p.1, q.2 - p.2);
    let (bx, by, bz) = (r.0 - p.0, r.1 - p.1, r.2 - p.2);
    (ay * bz - az * by, az * bx - ax * bz, ax * by - ay * bx)
}

/// The direction from the inner end of an edge to the outer one.
pub open spec fn outward(axis: Axis, start_inside: bool) -> Point {
    let sign: int = if start_inside {
        1
    } else {
        -1
    };
    match axis {
        Axis::X => (sign, 0, 0),
        Axis::Y => (0, sign, 0),
        Axis::Z => (0, 0, sign),
    }
}

proof fn lemma_small_product(x: int, y: int)
    requires
        0 <= x <= 1,
    ensures
        x * y == if x == 1 {
            y
        } else {
            0
        },
{
    assert(x * y == if x == 1 {
        y
    } else {
        0
    }) by (nonlinear_arith)
        requires
            0 <= x <= 1,
    ;
}

proof fn lemma_small_facing(p: Point, q: Point, r: Point)
    requires
        0 <= q.0 - p.0 <= 1,
        0 <= q.1 - p.1 <= 1,
        0 <= q.2 - p.2 <= 1,
    ensures
        ({
            let (bx, by, bz) = (r.0 - p.0, r.1 - p.1, r.2 - p.2);
            let x: bool = q.0 - p.0 == 1;
            let y: bool = q.1 - p.1 == 1;
            let z: bool = q.2 - p.2 == 1;
            let take = |on: bool, n: int|
                if on {
                    n
                } else {
                    0
                };
            facing(p, q, r) == (
                take(y, bz) - take(z, by),
                take(z, bx) - take(x, bz),
                take(x, by) - take(y, bx),
            )
        }),
{
    lemma_small_product(q.0 - p.0, r.1 - p.1);
    lemma_small_product(q.0 - p.0, r.2 - p.2);
    lemma_small_product(q.1 - p.1, r.0 - p.0);
    lemma_small_product(q.1 - p.1, r.2 - p.2);
    lemma_small_product(q.2 - p.2, r.0 - p.0);
    lemma_small_product(q.2 - p.2, r.1 - p.1);
}

/// Triangles face outward: with every vertex at the lattice point of its cell,
/// both triangles across an edge face from its inner end toward its outer one.
pub proof fn law_triangles_face_outward(axis: Axis, i: int, j: int, k: int, start_inside: bool)
    ensures
        ({
            let c = quad_cells(axis, i, j, k, start_inside);
            &&& facing(c[0], c[1], c[2]) == outward(axis, start_inside)
            &&& facing(c[3], c[4], c[5]) == outward(axis, start_inside)
        }),
{
    let c = quad_cells(axis, i, j, k, start_inside);
    lemma_small_facing(c[0], c[1], c[2]);
    lemma_small_facing(c[3], c[4], c[5]);
}

/// Whether the three numbers from `n` on are one of the two triangles across a
/// crossed interior edge, corner by corner, and face from its inner end toward its
/// outer one.
pub open spec fn is_triangle_of(
    samples: Seq<Scalar>,
    res: int,
    n: int,
    axis: Axis,
    at: Point,
    m: int,
) -> bool {
    let indices = surface_indices(samples, res);
    let start_inside = inside(samples, res, at.0, at.1, at.2);
    let cells = quad_cells(axis, at.0, at.1, at.2, start_inside);
    &&& in_box(first_edge(axis), far(res), at.0, at.1, at.2)
    &&& crosses(samples, res, axis, at.0, at.1, at.2)
    &&& m == 0 || m == 3
    &&& indices[n] == number_at(samples, res, cells[m])
    &&& indices[n + 1] == number_at(samples, res, cells[m + 1])
    &&& indices[n + 2] == number_at(samples, res, cells[m + 2])
    &&& facing(cells[m], cells[m + 1], cells[m + 2]) == outward(axis, start_inside)
}

/// The place of an item of one direction's part in the whole index list.
proof fn lemma_axis_part(samples: Seq<Scalar>, res: int, n: int) -> (r: (Axis, int))
    requires
        0 <= n < surface_indices(samples, res).len(),
    ensures
        ({
            let part = axis_indices(samples, res, r.0);
            &&& 0 <= n - r.1 < part.len()
            &&& forall|m: int|
                0 <= m < part.len() ==> surface_indices(samples, res)[r.1 + m] == #[trigger] part[m]
        }),
        r.0 == Axis::X ==> r.1 == 0,
        r.0 == Axis::Y ==> r.1 == axis_indices(samples, res, Axis::X).len(),
        r.0 == Axis::Z ==> r.1 == axis_indices(samples, res, Axis::X).len() + axis_indices(
            samples,
            res,
            Axis::Y,
        ).len(),
{
    let x = axis_indices(samples, res, Axis::X).len() as int;
    let y = axis_indices(samples, res, Axis::Y).len() as int;
    if n < x {
        (Axis::X, 0)
    } else if n < x + y {
        (Axis::Y, x)
    } else {
        (Axis::Z, x + y)
    }
}

/// Each edge adds whole triangles, so whatever comes before an edge is whole
/// triangles too.
proof fn lemma_whole_triangles(samples: Seq<Scalar>, res: int, axis: Axis)
    ensures
        axis_indices(samples, res, axis).len() % 3 == 0,
        forall|i: int, j: int, k: int|
            in_box(first_edge(axis), far(res), i, j, k) ==> (#[trigger] scan_before(
                quad_visit(samples, res, axis),
                first_edge(axis),
                far(res),
                i,
                j,
                k,
            )).len() % 3 == 0,
{
    let f = quad_visit(samples, res, axis);
    let whole = |a: Seq<u32>, b: Seq<u32>| a.len() % 3 == 0;
    assert forall|i: int, j: int, k: int| in_box(first_edge(axis), far(res), i, j, k) implies whole(
        #[trigger] f(i, j, k),
        f(i, j, k),
    ) by {
        reveal(edge_indices);
    }
    lemma_scan_related(f, f, first_edge(axis), far(res), whole);
    assert forall|i: int, j: int, k: int|
        in_box(first_edge(axis), far(res), i, j, k) implies (#[trigger] scan_before(
        f,
        first_edge(axis),
        far(res),
        i,
        j,
        k,
    )).len() % 3 == 0 by {
        let before = scan_before(f, first_edge(axis), far(res), i, j, k);
        assert(whole(before, before));
    }
}

/// How many numbers the edges in the directions before this one have added.
spec fn offset_of(samples: Seq<Scalar>, res: int, axis: Axis) -> int {
    let x = axis_indices(samples, res, Axis::X).len() as int;
    let y = axis_indices(samples, res, Axis::Y).len() as int;
    match axis {
        Axis::X => 0,
        Axis::Y => x,
        Axis::Z => x + y,
    }
}

/// How many numbers the edges before this one have added.
spec fn added_before(samples: Seq<Scalar>, res: int, axis: Axis, at: Point) -> int {
    offset_of(samples, res, axis) + scan_before(
        quad_visit(samples, res, axis),
        first_edge(axis),
        far(res),
        at.0,
        at.1,
        at.2,
    ).len()
}

/// An edge adds six numbers or none.
proof fn lemma_six_or_none(samples: Seq<Scalar>, res: int, axis: Axis, at: Point)
    ensures
        ({
            let added = edge_indices(samples, res, axis, at.0, at.1, at.2);
            let cells = quad_cells(
                axis,
                at.0,
                at.1,
                at.2,
                inside(samples, res, at.0, at.1, at.2),
            );
            added.len() == 0 || (added.len() == 6 && crosses(
                samples,
                res,
                axis,
                at.0,
                at.1,
                at.2,
            ) && forall|t: int|
                0 <= t < 6 ==> #[trigger] added[t] == number_at(samples, res, cells[t]))
        }),
{
    reveal(edge_indices);
}

/// What the edge at a place in the walk adds stands in the list from there on.
proof fn lemma_added_stands(samples: Seq<Scalar>, res: int, axis: Axis, at: Point)
    requires
        in_box(first_edge(axis), far(res), at.0, at.1, at.2),
    ensures
        ({
            let added = edge_indices(samples, res, axis, at.0, at.1, at.2);
            let start = added_before(samples, res, axis, at);
            &&& 0 <= start
            &&& start + added.len() <= surface_indices(samples, res).len()
            &&& forall|t: int|
                0 <= t < added.len() ==> surface_indices(samples, res)[start + t]
                    == #[trigger] added[t]
        }),
{
    let f = quad_visit(samples, res, axis);
    let before = scan_before(f, first_edge(axis), far(res), at.0, at.1, at.2);
    let added = edge_indices(samples, res, axis, at.0, at.1, at.2);
    let part = axis_indices(samples, res, axis);
    lemma_scan_holds_visit(f, first_edge(axis), far(res), at.0, at.1, at.2);
    assert forall|t: int| 0 <= t < added.len() implies surface_indices(samples, res)[added_before(
        samples,
        res,
        axis,
        at,
    ) + t] == #[trigger] added[t] by {
        assert((before + added)[before.len() + t] == added[t]);
        assert(part[before.len() + t] == added[t]);
    }
}

/// The edge that a listed number comes from, and where what it adds starts.
proof fn lemma_listed_number(samples: Seq<Scalar>, res: int, n: int) -> (edge: (Axis, Point))
    requires
        0 <= n < surface_indices(samples, res).len(),
    ensures
        ({
            let (axis, at) = edge;
            let start = added_before(samples, res, axis, at);
            &&& in_box(first_edge(axis), far(res), at.0, at.1, at.2)
            &&& start <= n < start + edge_indices(samples, res, axis, at.0, at.1, at.2).len()
            &&& n < offset_of(samples, res, axis) + axis_indices(samples, res, axis).len()
        }),
{
    let (axis, offset) = lemma_axis_part(samples, res, n);
    let at = lemma_scan_source(
        quad_visit(samples, res, axis),
        first_edge(axis),
        far(res),
        n - offset,
    );
    (axis, at)
}

/// The edge that a listed triangle covers, and where what it adds starts.
proof fn lemma_listed_triangle(samples: Seq<Scalar>, res: int, n: int) -> (edge: (Axis, Point, int))
    requires
        0 <= n < surface_indices(samples, res).len(),
        n % 3 == 0,
    ensures
        is_triangle_of(samples, res, n, edge.0, edge.1, edge.2),
        n + 2 < surface_indices(samples, res).len(),
        n == added_before(samples, res, edge.0, edge.1) + edge.2,
        n < offset_of(samples, res, edge.0) + axis_indices(samples, res, edge.0).len(),
        edge_indices(samples, res, edge.0, edge.1.0, edge.1.1, edge.1.2).len() == 6,
{
    let (axis, at) = lemma_listed_number(samples, res, n);
    let m = n - added_before(samples, res, axis, at);
    let added = edge_indices(samples, res, axis, at.0, at.1, at.2);
    lemma_six_or_none(samples, res, axis, at);
    lemma_added_stands(samples, res, axis, at);
    lemma_starts_at_a_triangle(samples, res, axis, at);
    assert(m == 0 || m == 3);
    let indices = surface_indices(samples, res);
    let start = added_before(samples, res, axis, at);
    let cells = quad_cells(axis, at.0, at.1, at.2, inside(samples, res, at.0, at.1, at.2));
    assert forall|t: int| 0 <= t < 6 implies indices[start + t] == number_at(
        samples,
        res,
        #[trigger] cells[t],
    ) by {
        assert(added[t] == number_at(samples, res, cells[t]));
    }
    assert(indices[start + m] == number_at(samples, res, cells[m]));
    assert(indices[start + (m + 1)] == number_at(samples, res, cells[m + 1]));
    assert(indices[start + (m + 2)] == number_at(samples, res, cells[m + 2]));
    law_triangles_face_outward(
        axis,
        at.0,
        at.1,
        at.2,
        inside(samples, res, at.0, at.1, at.2),
    );
    (axis, at, m)
}

proof fn lemma_starts_at_a_triangle(samples: Seq<Scalar>, res: int, axis: Axis, at: Point)
    requires
        in_box(first_edge(axis), far(res), at.0, at.1, at.2),
    ensures
        added_before(samples, res, axis, at) % 3 == 0,
{
    lemma_whole_triangles(samples, res, Axis::X);
    lemma_whole_triangles(samples, res, Axis::Y);
    lemma_whole_triangles(samples, res, Axis::Z);
}

/// Every listed triangle faces outward: it is one of the two across some interior
/// edge that the surface crosses, and faces from the edge's inner end toward its
/// outer one.
pub proof fn law_listed_triangles_face_outward(samples: Seq<Scalar>, res: int, n: int) -> (edge: (
    Axis,
    Point,
    int,
))
    requires
        0 <= n < surface_indices(samples, res).len(),
        n % 3 == 0,
    ensures
        is_triangle_of(samples, res, n, edge.0, edge.1, edge.2),
        n + 2 < surface_indices(samples, res).len(),
{
    lemma_listed_triangle(samples, res, n)
}

/// A field with one sign throughout has no surface.
pub proof fn law_no_sign_change_no_surface(samples: Seq<Scalar>, res: int, sign: bool)
    requires
        0 <= res,
        forall|i: int, j: int, k: int|
            0 <= i <= res && 0 <= j <= res && 0 <= k <= res ==> #[trigger] inside(
                samples,
                res,
                i,
                j,
                k,
            ) == sign,
    ensures
        surface_cells(samples, res).len() == 0,
        surface_indices(samples, res).len() == 0,
{
    let cells = cell_visit(samples, res);
    let none = |c: GridPoint| false;
    assert forall|i: int, j: int, k: int, n: int|
        in_box(origin(), far(res), i, j, k) && 0 <= n < cells(i, j, k).len() implies none(
        #[trigger] cells(i, j, k)[n],
    ) by {
        reveal(mixed);
        assert forall|c: int| 0 <= c < 8 implies #[trigger] corner_inside(
            samples,
            res,
            i,
            j,
            k,
            c,
        ) == sign by {
            let p = corner_of(i, j, k, c);
            assert(inside(samples, res, p.0, p.1, p.2) == sign);
        }
    }
    lemma_scan_all(cells, origin(), far(res), none);
    if surface_cells(samples, res).len() > 0 {
        assert(none(surface_cells(samples, res)[0]));
    }
    lemma_no_crossing_no_indices(samples, res, Axis::X, sign);
    lemma_no_crossing_no_indices(samples, res, Axis::Y, sign);
    lemma_no_crossing_no_indices(samples, res, Axis::Z, sign);
}

proof fn lemma_no_crossing_no_indices(samples: Seq<Scalar>, res: int, axis: Axis, sign: bool)
    requires
        forall|i: int, j: int, k: int|
            0 <= i <= res && 0 <= j <= res && 0 <= k <= res ==> #[trigger] inside(
                samples,
                res,
                i,
                j,
                k,
            ) == sign,
    ensures
        axis_indices(samples, res, axis).len() == 0,
{
    let quads = quad_visit(samples, res, axis);
    let none = |c: u32| false;
    assert forall|i: int, j: int, k: int, n: int|
        in_box(first_edge(axis), far(res), i, j, k) && 0 <= n < quads(i, j, k).len() implies none(
        #[trigger] quads(i, j, k)[n],
    ) by {
        reveal(edge_indices);
        let end = edge_end(axis, i, j, k);
        assert(inside(samples, res, i, j, k) == sign);
        assert(inside(samples, res, end.0, end.1, end.2) == sign);
    }
    lemma_scan_all(quads, first_edge(axis), far(res), none);
    if axis_indices(samples, res, axis).len() > 0 {
        assert(none(axis_indices(samples, res, axis)[0]));
    }
}

/// There are no more vertices than cells. In particular, 32-bit numbers tell all
/// vertices apart wherever they tell all cells apart.
pub proof fn law_no_more_vertices_than_cells(samples: Seq<Scalar>, res: int)
    requires
        0 <= res,
    ensures
        surface_cells(samples, res).len() <= volume(res),
{
    lemma_scan_at_most(cell_visit(samples, res), origin(), far(res));
    assert(res * (res * res) == res * res * res) by (nonlinear_arith);
}

/// A cell as a point.
pub open spec fn point_of(c: GridPoint) -> Point {
    (c.i as int, c.j as int, c.k as int)
}

/// Vertices are listed in the order in which the cells are walked: by the first
/// coordinate, then by the second, then by the third.
pub proof fn law_vertices_are_in_walking_order(samples: Seq<Scalar>, res: int, v: int, w: int)
    requires
        0 <= res <= usize::MAX,
        0 <= v < w < surface_cells(samples, res).len(),
    ensures
        comes_before(
            point_of(surface_cells(samples, res)[v]),
            point_of(surface_cells(samples, res)[w]),
        ),
{
    law_vertex_has_one_cell(samples, res, v);
    law_vertex_has_one_cell(samples, res, w);
    let p = point_of(surface_cells(samples, res)[v]);
    let q = point_of(surface_cells(samples, res)[w]);
    if comes_before(q, p) {
        lemma_scan_goes_on(cell_visit(samples, res), origin(), far(res), q, p);
    }
}

/// Whether the three numbers from `n` on are three different ones.
pub open spec fn corners_differ(indices: Seq<u32>, n: int) -> bool {
    &&& n + 2 < indices.len()
    &&& indices[n] != indices[n + 1]
    &&& indices[n + 1] != indices[n + 2]
    &&& indices[n + 2] != indices[n]
}

/// Whether an index list is made of triangles with three different corners each.
pub open spec fn proper_triangles(indices: Seq<u32>) -> bool {
    &&& indices.len() % 3 == 0
    &&& forall|n: int|
        0 <= n < indices.len() && n % 3 == 0 ==> #[trigger] corners_differ(indices, n)
}

proof fn lemma_proper_triangles_join(a: Seq<u32>, b: Seq<u32>)
    requires
        proper_triangles(a),
        proper_triangles(b),
    ensures
        proper_triangles(a + b),
{
    assert forall|n: int| 0 <= n < (a + b).len() && n % 3 == 0 implies #[trigger] corners_differ(
        a + b,
        n,
    ) by {
        if n < a.len() {
            assert(corners_differ(a, n));
        } else {
            assert(corners_differ(b, n - a.len()));
        }
    }
}

proof fn lemma_axis_triangles_are_proper(samples: Seq<Scalar>, res: int, axis: Axis)
    requires
        0 <= res <= usize::MAX,
        surface_cells(samples, res).len() <= NO_VERTEX,
    ensures
        proper_triangles(axis_indices(samples, res, axis)),
{
    let f = quad_visit(samples, res, axis);
    let proper = |a: Seq<u32>, b: Seq<u32>| proper_triangles(a);
    assert forall|a: Seq<u32>, b: Seq<u32>, c: Seq<u32>, d: Seq<u32>| #[trigger]
        joins(proper, a, b, c, d) by {
        if proper_triangles(a) && proper_triangles(c) {
            lemma_proper_triangles_join(a, c);
        }
    }
    assert forall|i: int, j: int, k: int| in_box(first_edge(axis), far(res), i, j, k) implies proper(
        #[trigger] f(i, j, k),
        f(i, j, k),
    ) by {
        lemma_edge_triangles_are_proper(samples, res, axis, i, j, k);
    }
    lemma_scan_related(f, f, first_edge(axis), far(res), proper);
}

proof fn lemma_edge_triangles_are_proper(
    samples: Seq<Scalar>,
    res: int,
    axis: Axis,
    i: int,
    j: int,
    k: int,
)
    requires
        0 <= res <= usize::MAX,
        surface_cells(samples, res).len() <= NO_VERTEX,
        in_box(first_edge(axis), far(res), i, j, k),
    ensures
        proper_triangles(edge_indices(samples, res, axis, i, j, k)),
{
    let added = edge_indices(samples, res, axis, i, j, k);
    if crosses(samples, res, axis, i, j, k) {
        law_crossed_edge_adds_two_triangles(samples, res, axis, i, j, k);
        let a = number_at(samples, res, beside(axis, i, j, k, 1, 1));
        let b = number_at(samples, res, beside(axis, i, j, k, 0, 1));
        let c = number_at(samples, res, beside(axis, i, j, k, 0, 0));
        let e = number_at(samples, res, beside(axis, i, j, k, 1, 0));
        assert(a != b && b != c && c != a && c != e && e != a);
        assert(added =~= seq![a, b, c, a, c, e] || added =~= seq![a, c, b, a, e, c]);
        assert(corners_differ(added, 0) && corners_differ(added, 3));
        assert forall|n: int| 0 <= n < added.len() && n % 3 == 0 implies #[trigger] corners_differ(
            added,
            n,
        ) by {
            assert(n == 0 || n == 3);
        }
    } else {
        reveal(edge_indices);
    }
}

/// The index list is made of whole triangles, and no triangle is degenerate: its
/// three corners are three different vertices.
pub proof fn law_triangles_are_proper(samples: Seq<Scalar>, res: int)
    requires
        0 <= res <= usize::MAX,
        surface_cells(samples, res).len() <= NO_VERTEX,
    ensures
        proper_triangles(surface_indices(samples, res)),
{
    lemma_axis_triangles_are_proper(samples, res, Axis::X);
    lemma_axis_triangles_are_proper(samples, res, Axis::Y);
    lemma_axis_triangles_are_proper(samples, res, Axis::Z);
    let x = axis_indices(samples, res, Axis::X);
    let y = axis_indices(samples, res, Axis::Y);
    lemma_proper_triangles_join(x, y);
    lemma_proper_triangles_join(x + y, axis_indices(samples, res, Axis::Z));
}

/// The ends of an edge of a cell that the surface does not pass through agree.
proof fn lemma_unmixed_edge_agrees(samples: Seq<Scalar>, res: int, axis: Axis, i: int, j: int, k: int)
    requires
        1 <= res,
        surface_cells(samples, res).len() == 0,
        in_box(origin(), far(res + 1), i, j, k),
        ({
            let end = edge_end(axis, i, j, k);
            in_box(origin(), far(res + 1), end.0, end.1, end.2)
        }),
    ensures
        !crosses(samples, res, axis, i, j, k),
{
    // A cell that has the edge: the one that starts at it, or one further back.
    let x = if i < res {
        i
    } else {
        i - 1
    };
    let y = if j < res {
        j
    } else {
        j - 1
    };
    let z = if k < res {
        k
    } else {
        k - 1
    };
    let end = edge_end(axis, i, j, k);
    let s = (i - x) + 2 * (j - y) + 4 * (k - z);
    let e = (end.0 - x) + 2 * (end.1 - y) + 4 * (end.2 - z);
    assert(corner_of(x, y, z, s) == (i, j, k));
    assert(corner_of(x, y, z, e) == end);
    if crosses(samples, res, axis, i, j, k) {
        reveal(mixed);
        assert(corner_inside(samples, res, x, y, z, s) != corner_inside(samples, res, x, y, z, e));
        assert(mixed(samples, res, x, y, z));
        law_mixed_cell_owns_a_vertex(samples, res, x, y, z);
    }
}

proof fn lemma_no_surface_no_sign_change(samples: Seq<Scalar>, res: int, i: int, j: int, k: int)
    requires
        1 <= res,
        surface_cells(samples, res).len() == 0,
        in_box(origin(), far(res + 1), i, j, k),
    ensures
        inside(samples, res, i, j, k) == inside(samples, res, 0, 0, 0),
    decreases i + j + k,
{
    if i > 0 {
        lemma_unmixed_edge_agrees(samples, res, Axis::X, i - 1, j, k);
        lemma_no_surface_no_sign_change(samples, res, i - 1, j, k);
    } else if j > 0 {
        lemma_unmixed_edge_agrees(samples, res, Axis::Y, i, j - 1, k);
        lemma_no_surface_no_sign_change(samples, res, i, j - 1, k);
    } else if k > 0 {
        lemma_unmixed_edge_agrees(samples, res, Axis::Z, i, j, k - 1);
        lemma_no_surface_no_sign_change(samples, res, i, j, k - 1);
    }
}

/// Nothing is missed: where a grid with cells has no vertices, the field has one
/// sign at all its corners.
pub proof fn law_no_surface_no_sign_change(samples: Seq<Scalar>, res: int)
    requires
        1 <= res,
        surface_cells(samples, res).len() == 0,
    ensures
        forall|i: int, j: int, k: int|
            0 <= i <= res && 0 <= j <= res && 0 <= k <= res ==> #[trigger] inside(
                samples,
                res,
                i,
                j,
                k,
            ) == inside(samples, res, 0, 0, 0),
{
    assert forall|i: int, j: int, k: int|
        0 <= i <= res && 0 <= j <= res && 0 <= k <= res implies #[trigger] inside(
        samples,
        res,
        i,
        j,
        k,
    ) == inside(samples, res, 0, 0, 0) by {
        lemma_no_surface_no_sign_change(samples, res, i, j, k);
    }
}

/// Whether vertex `v` is the one that the cell at a point owns.
pub open spec fn owns(samples: Seq<Scalar>, res: int, c: Point, v: u32) -> bool {
    let cells = surface_cells(samples, res);
    &&& v < cells.len()
    &&& cells[v as int].i == c.0
    &&& cells[v as int].j == c.1
    &&& cells[v as int].k == c.2
}

/// Triangles refer to a vertex by its place: the number of a cell that the surface
/// passes through is where the cell stands in the list of vertices, and no other cell
/// has a number.
pub proof fn law_vertex_numbers_are_places(samples: Seq<Scalar>, res: int, i: int, j: int, k: int)
    requires
        0 <= res <= usize::MAX,
        surface_cells(samples, res).len() <= 0xffff_ffff,
        in_box(origin(), far(res), i, j, k),
    ensures
        mixed(samples, res, i, j, k) ==> owns(
            samples,
            res,
            (i, j, k),
            vertex_number(samples, res, i, j, k),
        ),
        !mixed(samples, res, i, j, k) ==> vertex_number(samples, res, i, j, k) == 0xffff_ffff,
{
    reveal(vertex_number);
    if mixed(samples, res, i, j, k) {
        lemma_number_is_rank(samples, res, i, j, k);
        law_mixed_cell_owns_a_vertex(samples, res, i, j, k);
    }
}

/// Whether a direction is one step along one coordinate.
pub open spec fn is_step(d: Point) -> bool {
    d == (1int, 0int, 0int) || d == (0int, 1int, 0int) || d == (0int, 0int, 1int)
}

/// Whether the edge from `p` one step along `d` has four cells around it.
pub open spec fn is_inner_edge(res: int, p: Point, d: Point) -> bool {
    &&& 1 - d.0 <= p.0 < res
    &&& 1 - d.1 <= p.1 < res
    &&& 1 - d.2 <= p.2 < res
}

/// Whether a cell is one of the four around the edge from `p` one step along `d`: it
/// starts at `p`, or one step back along either of the two other coordinates, or both.
pub open spec fn touches_edge(p: Point, d: Point, c: Point) -> bool {
    &&& p.0 - (1 - d.0) <= c.0 <= p.0
    &&& p.1 - (1 - d.1) <= c.1 <= p.1
    &&& p.2 - (1 - d.2) <= c.2 <= p.2
}

/// Whether the three numbers from `n` on are a triangle between three cells around
/// the edge from `p` along `d`, each given by the vertex it owns, that faces from the
/// edge's inner end to its outer one: its corners are seen counterclockwise from
/// there.
pub open spec fn is_patch(
    samples: Seq<Scalar>,
    res: int,
    n: int,
    p: Point,
    d: Point,
    a: Point,
    b: Point,
    c: Point,
) -> bool {
    let indices = surface_indices(samples, res);
    let start_inside = inside(samples, res, p.0, p.1, p.2);
    let (ux, uy, uz) = (b.0 - a.0, b.1 - a.1, b.2 - a.2);
    let (vx, vy, vz) = (c.0 - a.0, c.1 - a.1, c.2 - a.2);
    let normal: Point = (uy * vz - uz * vy, uz * vx - ux * vz, ux * vy - uy * vx);
    &&& 0 <= n
    &&& n + 3 <= indices.len()
    &&& is_step(d)
    &&& is_inner_edge(res, p, d)
    &&& start_inside != inside(samples, res, p.0 + d.0, p.1 + d.1, p.2 + d.2)
    &&& touches_edge(p, d, a) && touches_edge(p, d, b) && touches_edge(p, d, c)
    &&& owns(samples, res, a, indices[n])
    &&& owns(samples, res, b, indices[n + 1])
    &&& owns(samples, res, c, indices[n + 2])
    &&& normal == (if start_inside {
        d
    } else {
        (-d.0, -d.1, -d.2)
    })
}

/// The direction of a step.
spec fn axis_of(d: Point) -> Axis {
    if d.0 == 1 {
        Axis::X
    } else if d.1 == 1 {
        Axis::Y
    } else {
        Axis::Z
    }
}

/// The step in a direction.
spec fn step_of(axis: Axis) -> Point {
    match axis {
        Axis::X => (1, 0, 0),
        Axis::Y => (0, 1, 0),
        Axis::Z => (0, 0, 1),
    }
}

/// The two triangles across a crossed edge in plain coordinates.
proof fn lemma_patch(samples: Seq<Scalar>, res: int, n: int, axis: Axis, p: Point, m: int)
    requires
        0 <= res <= usize::MAX,
        surface_cells(samples, res).len() <= 0xffff_ffff,
        0 <= n,
        n + 3 <= surface_indices(samples, res).len(),
        is_triangle_of(samples, res, n, axis, p, m),
    ensures
        ({
            let cells = quad_cells(axis, p.0, p.1, p.2, inside(samples, res, p.0, p.1, p.2));
            is_patch(samples, res, n, p, step_of(axis), cells[m], cells[m + 1], cells[m + 2])
        }),
{
    let flag = inside(samples, res, p.0, p.1, p.2);
    let cells = quad_cells(axis, p.0, p.1, p.2, flag);
    law_triangles_face_outward(axis, p.0, p.1, p.2, flag);
    lemma_owned_corner(samples, res, axis, p, cells[m]);
    lemma_owned_corner(samples, res, axis, p, cells[m + 1]);
    lemma_owned_corner(samples, res, axis, p, cells[m + 2]);
}

proof fn lemma_owned_corner(samples: Seq<Scalar>, res: int, axis: Axis, p: Point, c: Point)
    requires
        0 <= res <= usize::MAX,
        surface_cells(samples, res).len() <= 0xffff_ffff,
        in_box(first_edge(axis), far(res), p.0, p.1, p.2),
        crosses(samples, res, axis, p.0, p.1, p.2),
        c == beside(axis, p.0, p.1, p.2, 1, 1) || c == beside(axis, p.0, p.1, p.2, 0, 1) || c
            == beside(axis, p.0, p.1, p.2, 0, 0) || c == beside(axis, p.0, p.1, p.2, 1, 0),
    ensures
        owns(samples, res, c, number_at(samples, res, c)),
{
    law_crossed_edge_has_four_vertices(samples, res, axis, p.0, p.1, p.2, 1, 1);
    law_crossed_edge_has_four_vertices(samples, res, axis, p.0, p.1, p.2, 0, 1);
    law_crossed_edge_has_four_vertices(samples, res, axis, p.0, p.1, p.2, 0, 0);
    law_crossed_edge_has_four_vertices(samples, res, axis, p.0, p.1, p.2, 1, 0);
    law_vertex_numbers_are_places(samples, res, c.0, c.1, c.2);
}

/// Every inner edge with different signs at its ends is covered: two triangles stand
/// one after the other in the list, between the vertices of the four cells around the
/// edge, and both face from its inner end to its outer one. Together they use all four
/// cells.
pub proof fn law_crossed_edges_are_covered(samples: Seq<Scalar>, res: int, p: Point, d: Point) -> (r: (
    int,
    Seq<Point>,
))
    requires
        0 <= res <= usize::MAX,
        surface_cells(samples, res).len() <= 0xffff_ffff,
        is_step(d),
        is_inner_edge(res, p, d),
        inside(samples, res, p.0, p.1, p.2) != inside(
            samples,
            res,
            p.0 + d.0,
            p.1 + d.1,
            p.2 + d.2,
        ),
    ensures
        r.0 % 3 == 0,
        is_patch(samples, res, r.0, p, d, r.1[0], r.1[1], r.1[2]),
        is_patch(samples, res, r.0 + 3, p, d, r.1[3], r.1[4], r.1[5]),
        forall|c: Point| #[trigger]
            touches_edge(p, d, c) ==> c == r.1[0] || c == r.1[1] || c == r.1[2] || c == r.1[3] || c
                == r.1[4] || c == r.1[5],
{
    let axis = axis_of(d);
    assert(step_of(axis) == d);
    assert(crosses(samples, res, axis, p.0, p.1, p.2));
    assert(in_box(first_edge(axis), far(res), p.0, p.1, p.2));
    law_crossed_edge_adds_two_triangles(samples, res, axis, p.0, p.1, p.2);
    let start = lemma_listed_at(samples, res, axis, p.0, p.1, p.2);
    let flag = inside(samples, res, p.0, p.1, p.2);
    let cells = quad_cells(axis, p.0, p.1, p.2, flag);
    let added = edge_indices(samples, res, axis, p.0, p.1, p.2);
    let indices = surface_indices(samples, res);
    assert forall|t: int| 0 <= t < 6 implies indices[start + t] == number_at(
        samples,
        res,
        #[trigger] cells[t],
    ) by {
        assert(indices.subrange(start, start + 6)[t] == added[t]);
    }
    law_triangles_face_outward(axis, p.0, p.1, p.2, flag);
    assert(cells[0] == cells[3]);
    assert(is_triangle_of(samples, res, start, axis, p, 0)) by {
        assert(cells[1] == cells[1] && cells[2] == cells[2]);
    }
    assert(is_triangle_of(samples, res, start + 3, axis, p, 3)) by {
        assert(cells[3] == cells[3] && cells[4] == cells[4] && cells[5] == cells[5]);
    }
    lemma_patch(samples, res, start, axis, p, 0);
    lemma_patch(samples, res, start + 3, axis, p, 3);
    let a = beside(axis, p.0, p.1, p.2, 1, 1);
    let b = beside(axis, p.0, p.1, p.2, 0, 1);
    let c = beside(axis, p.0, p.1, p.2, 0, 0);
    let e = beside(axis, p.0, p.1, p.2, 1, 0);
    assert forall|x: Point| #[trigger] touches_edge(p, d, x) implies x == a || x == b || x == c || x
        == e by {
    }
    assert(cells[0] == a && cells[3] == a);
    (start, cells)
}

/// The same as [`law_triangles_are_listed`], at a place where a triangle starts.
proof fn lemma_listed_at(samples: Seq<Scalar>, res: int, axis: Axis, i: int, j: int, k: int) -> (start: int)
    requires
        in_box(first_edge(axis), far(res), i, j, k),
    ensures
        start % 3 == 0,
        0 <= start <= start + edge_indices(samples, res, axis, i, j, k).len()
            <= surface_indices(samples, res).len(),
        surface_indices(samples, res).subrange(
            start,
            start + edge_indices(samples, res, axis, i, j, k).len(),
        ) == edge_indices(samples, res, axis, i, j, k),
{
    let added = edge_indices(samples, res, axis, i, j, k);
    let start = added_before(samples, res, axis, (i, j, k));
    lemma_added_stands(samples, res, axis, (i, j, k));
    lemma_starts_at_a_triangle(samples, res, axis, (i, j, k));
    assert(surface_indices(samples, res).subrange(start, start + added.len()) =~= added);
    start
}

/// Every triangle covers an edge: from each place where one starts, the list holds a
/// triangle between three cells around some inner edge with different signs at its
/// ends, and it faces from the inner end to the outer one.
pub proof fn law_triangles_cover_crossed_edges(samples: Seq<Scalar>, res: int, n: int) -> (r: (
    Point,
    Point,
    Point,
    Point,
    Point,
))
    requires
        0 <= res <= usize::MAX,
        surface_cells(samples, res).len() <= 0xffff_ffff,
        0 <= n < surface_indices(samples, res).len(),
        n % 3 == 0,
    ensures
        is_patch(samples, res, n, r.0, r.1, r.2, r.3, r.4),
{
    let (axis, p, m) = law_listed_triangles_face_outward(samples, res, n);
    lemma_patch(samples, res, n, axis, p, m);
    let cells = quad_cells(axis, p.0, p.1, p.2, inside(samples, res, p.0, p.1, p.2));
    (p, step_of(axis), cells[m], cells[m + 1], cells[m + 2])
}

/// Triangles are listed edge by edge: first those across edges along the first
/// coordinate, then along the second, then along the third, and in each direction in
/// the order in which the edges' lower ends are walked. The two across one edge follow
/// each other.
pub proof fn law_triangles_are_in_walking_order(samples: Seq<Scalar>, res: int, n: int, m: int) -> (r: (
    (Point, Point, Seq<Point>),
    (Point, Point, Seq<Point>),
))
    requires
        0 <= res <= usize::MAX,
        surface_cells(samples, res).len() <= 0xffff_ffff,
        0 <= n < m < surface_indices(samples, res).len(),
        n % 3 == 0,
        m % 3 == 0,
    ensures
        ({
            let (p, d, a) = r.0;
            let (q, e, b) = r.1;
            &&& is_patch(samples, res, n, p, d, a[0], a[1], a[2])
            &&& is_patch(samples, res, m, q, e, b[0], b[1], b[2])
            &&& d.1 + 2 * d.2 <= e.1 + 2 * e.2
            &&& d == e ==> p.0 < q.0 || (p.0 == q.0 && (p.1 < q.1 || (p.1 == q.1 && p.2 <= q.2)))
            &&& d == e && p == q ==> m == n + 3
        }),
{
    let (axis, p, k) = lemma_listed_triangle(samples, res, n);
    let (other, q, l) = lemma_listed_triangle(samples, res, m);
    lemma_patch(samples, res, n, axis, p, k);
    lemma_patch(samples, res, m, other, q, l);
    if axis == other && comes_before(q, p) {
        lemma_scan_goes_on(
            quad_visit(samples, res, axis),
            first_edge(axis),
            far(res),
            q,
            p,
        );
    }
    let a = quad_cells(axis, p.0, p.1, p.2, inside(samples, res, p.0, p.1, p.2));
    let b = quad_cells(other, q.0, q.1, q.2, inside(samples, res, q.0, q.1, q.2));
    (
        (p, step_of(axis), seq![a[k], a[k + 1], a[k + 2]]),
        (q, step_of(other), seq![b[l], b[l + 1], b[l + 2]]),
    )
}

} // verus!
