//! Naive surface nets: the surface of any sampled field, as triangles.
//!
//! The field is sampled at every corner of a grid. Each cell that the surface
//! passes through gets one vertex, placed from the points where the surface
//! crosses the cell's edges. Each interior grid edge that the surface crosses
//! joins the vertices of the four cells around it into two triangles.

use vstd::prelude::*;
use crate::grid::{far, flat, flat_place, grid_point, lemma_flat_bounds, lemma_flat_carries, law_flat_is_injective, law_flat_is_onto, origin, volume, GridPoint};
use crate::scalar::{law_comparison_is_by_value, Scalar};
use crate::scan::{in_box, lemma_scan_all, lemma_scan_ends, lemma_scan_plane_end, lemma_scan_row_end, lemma_scan_step, scan, scan_before, Point, Visit};

verus! {

/// What stands for a vertex where a cell has none.
pub const NO_VERTEX: u32 = u32::MAX;

/// The corners of a cell, as offsets from its lowest one.
pub const CORNER: [(usize, usize, usize); 8] = [
    (0, 0, 0),
    (1, 0, 0),
    (0, 1, 0),
    (1, 1, 0),
    (0, 0, 1),
    (1, 0, 1),
    (0, 1, 1),
    (1, 1, 1),
];

/// The edges of a cell as pairs of corners, grouped by direction.
pub const EDGES: [(usize, usize); 12] = [
    (0, 1),
    (2, 3),
    (4, 5),
    (6, 7),
    (0, 2),
    (1, 3),
    (4, 6),
    (5, 7),
    (0, 4),
    (1, 5),
    (2, 6),
    (3, 7),
];

/// Whether the field is negative at a grid corner.
pub open spec fn inside(samples: Seq<Scalar>, res: int, i: int, j: int, k: int) -> bool {
    samples[flat(res + 1, i, j, k)].negative()
}

/// Corner `c` of the cell at `(i, j, k)`.
pub open spec fn corner_of(i: int, j: int, k: int, c: int) -> Point {
    (i + CORNER[c].0, j + CORNER[c].1, k + CORNER[c].2)
}

/// Whether the field is negative at corner `c` of a cell.
pub open spec fn corner_inside(samples: Seq<Scalar>, res: int, i: int, j: int, k: int, c: int) -> bool {
    let p = corner_of(i, j, k, c);
    inside(samples, res, p.0, p.1, p.2)
}

/// Whether the surface passes through a cell: its corners have mixed signs.
#[verifier::opaque]
pub open spec fn mixed(samples: Seq<Scalar>, res: int, i: int, j: int, k: int) -> bool {
    &&& exists|c: int| 0 <= c < 8 && #[trigger] corner_inside(samples, res, i, j, k, c)
    &&& exists|c: int| 0 <= c < 8 && !#[trigger] corner_inside(samples, res, i, j, k, c)
}

/// A cell yields itself where the surface passes through it, and nothing elsewhere.
pub open spec fn cell_visit(samples: Seq<Scalar>, res: int) -> Visit<GridPoint> {
    |i: int, j: int, k: int|
        if mixed(samples, res, i, j, k) {
            seq![grid_point(i, j, k)]
        } else {
            Seq::empty()
        }
}

/// The cells that own a vertex, in the order of their vertices.
pub open spec fn surface_cells(samples: Seq<Scalar>, res: int) -> Seq<GridPoint> {
    scan(cell_visit(samples, res), origin(), far(res))
}

/// How many cells before `(i, j, k)` own a vertex.
pub open spec fn rank(samples: Seq<Scalar>, res: int, i: int, j: int, k: int) -> int {
    scan_before(cell_visit(samples, res), origin(), far(res), i, j, k).len() as int
}

/// The number by which triangles refer to the vertex of a cell: its rank, in 32
/// bits, or [`NO_VERTEX`].
#[verifier::opaque]
pub open spec fn vertex_number(samples: Seq<Scalar>, res: int, i: int, j: int, k: int) -> u32 {
    if mixed(samples, res, i, j, k) {
        (rank(samples, res, i, j, k) % 0x1_0000_0000) as u32
    } else {
        NO_VERTEX
    }
}

/// A point where the surface crosses an edge of a cell: the ends of the edge and
/// the field at both. The crossing divides the edge as zero divides the two values.
#[derive(Clone, Copy, Debug, PartialEq, Eq, Structural)]
pub struct Crossing {
    pub a: GridPoint,
    pub b: GridPoint,
    pub at_a: Scalar,
    pub at_b: Scalar,
}

/// Whether the surface crosses edge `e` of a cell.
pub open spec fn edge_crossed(samples: Seq<Scalar>, res: int, i: int, j: int, k: int, e: int) -> bool {
    corner_inside(samples, res, i, j, k, EDGES[e].0 as int) != corner_inside(
        samples,
        res,
        i,
        j,
        k,
        EDGES[e].1 as int,
    )
}

/// Edge `e` of a cell with the field at its ends.
pub open spec fn edge_samples(samples: Seq<Scalar>, res: int, i: int, j: int, k: int, e: int) -> Crossing {
    let a = corner_of(i, j, k, EDGES[e].0 as int);
    let b = corner_of(i, j, k, EDGES[e].1 as int);
    Crossing {
        a: grid_point(a.0, a.1, a.2),
        b: grid_point(b.0, b.1, b.2),
        at_a: samples[flat(res + 1, a.0, a.1, a.2)],
        at_b: samples[flat(res + 1, b.0, b.1, b.2)],
    }
}

/// The crossings on the first `n` edges of a cell.
pub open spec fn crossings_on(samples: Seq<Scalar>, res: int, i: int, j: int, k: int, n: int) -> Seq<Crossing>
    decreases n,
{
    if n <= 0 {
        Seq::empty()
    } else if edge_crossed(samples, res, i, j, k, n - 1) {
        crossings_on(samples, res, i, j, k, n - 1).push(edge_samples(samples, res, i, j, k, n - 1))
    } else {
        crossings_on(samples, res, i, j, k, n - 1)
    }
}

/// The direction of a grid edge.
#[derive(Clone, Copy, Debug, PartialEq, Eq, Structural)]
pub enum Axis {
    X,
    Y,
    Z,
}

/// The lowest corner from which an edge in this direction has four cells around it.
pub open spec fn first_edge(axis: Axis) -> Point {
    match axis {
        Axis::X => (0, 1, 1),
        Axis::Y => (1, 0, 1),
        Axis::Z => (1, 1, 0),
    }
}

/// The upper end of the edge that starts at `(i, j, k)`.
pub open spec fn edge_end(axis: Axis, i: int, j: int, k: int) -> Point {
    match axis {
        Axis::X => (i + 1, j, k),
        Axis::Y => (i, j + 1, k),
        Axis::Z => (i, j, k + 1),
    }
}

/// A cell at an edge: the one that starts at the edge's lower end, moved back by
/// `u` and `v` along the two other directions.
pub open spec fn beside(axis: Axis, i: int, j: int, k: int, u: int, v: int) -> Point {
    match axis {
        Axis::X => (i, j - u, k - v),
        Axis::Y => (i - u, j, k - v),
        Axis::Z => (i - u, j - v, k),
    }
}

/// Whether the surface crosses the edge that starts at `(i, j, k)`.
pub open spec fn crosses(samples: Seq<Scalar>, res: int, axis: Axis, i: int, j: int, k: int) -> bool {
    let end = edge_end(axis, i, j, k);
    inside(samples, res, i, j, k) != inside(samples, res, end.0, end.1, end.2)
}

/// The cells of the two triangles across an edge, in winding order: three for
/// one triangle and three for the other. `start_inside` says which end of the
/// edge is inside.
pub open spec fn quad_cells(axis: Axis, i: int, j: int, k: int, start_inside: bool) -> Seq<Point> {
    let a = beside(axis, i, j, k, 1, 1);
    let b = beside(axis, i, j, k, 0, 1);
    let c = beside(axis, i, j, k, 0, 0);
    let e = beside(axis, i, j, k, 1, 0);
    if start_inside != (axis == Axis::Y) {
        seq![a, b, c, a, c, e]
    } else {
        seq![a, c, b, a, e, c]
    }
}

/// The vertex number of a cell given as a point.
pub open spec fn number_at(samples: Seq<Scalar>, res: int, p: Point) -> u32 {
    vertex_number(samples, res, p.0, p.1, p.2)
}

/// The vertex numbers of a sequence of cells.
pub open spec fn numbers_at(samples: Seq<Scalar>, res: int, cells: Seq<Point>) -> Seq<u32> {
    Seq::new(cells.len(), |n: int| number_at(samples, res, cells[n]))
}

/// Whether all four cells around an edge have a vertex number.
pub open spec fn all_numbered(samples: Seq<Scalar>, res: int, axis: Axis, i: int, j: int, k: int) -> bool {
    forall|u: int, v: int|
        0 <= u <= 1 && 0 <= v <= 1 ==> number_at(samples, res, #[trigger] beside(axis, i, j, k, u, v))
            != NO_VERTEX
}

/// What the edge that starts at `(i, j, k)` adds to the index list: six vertex
/// numbers where the surface crosses it, and nothing elsewhere.
#[verifier::opaque]
pub open spec fn edge_indices(samples: Seq<Scalar>, res: int, axis: Axis, i: int, j: int, k: int) -> Seq<u32> {
    if crosses(samples, res, axis, i, j, k) && all_numbered(samples, res, axis, i, j, k) {
        numbers_at(samples, res, quad_cells(axis, i, j, k, inside(samples, res, i, j, k)))
    } else {
        Seq::empty()
    }
}

/// The walk over the edges in one direction.
pub open spec fn quad_visit(samples: Seq<Scalar>, res: int, axis: Axis) -> Visit<u32> {
    |i: int, j: int, k: int| edge_indices(samples, res, axis, i, j, k)
}

/// The part of the index list that the edges in one direction add.
pub open spec fn axis_indices(samples: Seq<Scalar>, res: int, axis: Axis) -> Seq<u32> {
    scan(quad_visit(samples, res, axis), first_edge(axis), far(res))
}

/// The whole index list, three numbers to a triangle.
pub open spec fn surface_indices(samples: Seq<Scalar>, res: int) -> Seq<u32> {
    axis_indices(samples, res, Axis::X) + axis_indices(samples, res, Axis::Y) + axis_indices(
        samples,
        res,
        Axis::Z,
    )
}

/// Whether the field is negative at a grid corner.
fn is_inside(samples: &Vec<Scalar>, res: usize, i: usize, j: usize, k: usize) -> (r: bool)
    requires
        samples.len() == volume(res + 1),
        i <= res,
        j <= res,
        k <= res,
    ensures
        r == inside(samples@, res as int, i as int, j as int, k as int),
{
    proof {
        lemma_flat_bounds(res + 1, i as int, j as int, k as int);
    }
    samples[flat_place(res + 1, i, j, k)].is_negative()
}

/// Whether the surface passes through a cell.
fn is_mixed(samples: &Vec<Scalar>, res: usize, i: usize, j: usize, k: usize) -> (r: bool)
    requires
        samples.len() == volume(res + 1),
        i < res,
        j < res,
        k < res,
    ensures
        r == mixed(samples@, res as int, i as int, j as int, k as int),
{
    reveal(mixed);
    let mut any_inside: bool = false;
    let mut any_outside: bool = false;
    for c in 0..8
        invariant
            samples.len() == volume(res + 1),
            i < res,
            j < res,
            k < res,
            any_inside <==> exists|n: int|
                0 <= n < c && #[trigger] corner_inside(
                    samples@,
                    res as int,
                    i as int,
                    j as int,
                    k as int,
                    n,
                ),
            any_outside <==> exists|n: int|
                0 <= n < c && !#[trigger] corner_inside(
                    samples@,
                    res as int,
                    i as int,
                    j as int,
                    k as int,
                    n,
                ),
    {
        let (dx, dy, dz) = CORNER[c];
        let here = is_inside(samples, res, i + dx, j + dy, k + dz);
        assert(here == corner_inside(samples@, res as int, i as int, j as int, k as int, c as int));
        if here {
            any_inside = true;
        } else {
            any_outside = true;
        }
    }
    any_inside && any_outside
}

/// The crossings on the edges of a cell.
fn cell_crossings(samples: &Vec<Scalar>, res: usize, i: usize, j: usize, k: usize) -> (r: Vec<Crossing>)
    requires
        samples.len() == volume(res + 1),
        i < res,
        j < res,
        k < res,
    ensures
        r@ == crossings_on(samples@, res as int, i as int, j as int, k as int, 12),
{
    let mut found: Vec<Crossing> = Vec::new();
    for e in 0..12
        invariant
            samples.len() == volume(res + 1),
            i < res,
            j < res,
            k < res,
            found@ == crossings_on(samples@, res as int, i as int, j as int, k as int, e as int),
    {
        let (a, b) = EDGES[e];
        assert(a < 8 && b < 8);
        let (ax, ay, az) = CORNER[a];
        let (bx, by, bz) = CORNER[b];
        assert(ax <= 1 && ay <= 1 && az <= 1 && bx <= 1 && by <= 1 && bz <= 1);
        let pa = GridPoint { i: i + ax, j: j + ay, k: k + az };
        let pb = GridPoint { i: i + bx, j: j + by, k: k + bz };
        proof {
            lemma_flat_bounds(res + 1, pa.i as int, pa.j as int, pa.k as int);
            lemma_flat_bounds(res + 1, pb.i as int, pb.j as int, pb.k as int);
        }
        let at_a = samples[flat_place(res + 1, pa.i, pa.j, pa.k)];
        let at_b = samples[flat_place(res + 1, pb.i, pb.j, pb.k)];
        if at_a.is_negative() != at_b.is_negative() {
            found.push(Crossing { a: pa, b: pb, at_a, at_b });
        }
    }
    found
}

/// A sampled field with the net of its surface.
#[derive(Debug)]
pub struct Net {
    /// How many cells the grid has to a side.
    pub res: usize,
    /// The field at every grid corner.
    pub samples: Vec<Scalar>,
    /// The cells that own a vertex, in the order of their vertices.
    pub cells: Vec<GridPoint>,
    /// The vertex numbers of the triangles, three to a triangle.
    pub indices: Vec<u32>,
}

impl Net {
    /// Whether this is the net of its own samples.
    pub open spec fn wf(self) -> bool {
        &&& self.samples.len() == volume(self.res + 1)
        &&& self.cells@ == surface_cells(self.samples@, self.res as int)
        &&& self.indices@ == surface_indices(self.samples@, self.res as int)
    }
}

/// What is known of the vertex numbers while the cells are walked: every cell
/// whose flat place has been reached has its number there.
pub open spec fn numbered(samples: Seq<Scalar>, res: int, numbers: Seq<u32>) -> bool {
    forall|i: int, j: int, k: int|
        in_box(origin(), far(res), i, j, k) && #[trigger] flat(res, i, j, k) < numbers.len()
            ==> numbers[flat(res, i, j, k)] == vertex_number(samples, res, i, j, k)
}

/// Finds the cells that own a vertex and numbers them.
fn number_cells(samples: &Vec<Scalar>, res: usize) -> (r: (Vec<GridPoint>, Vec<u32>))
    requires
        samples.len() == volume(res + 1),
    ensures
        r.0@ == surface_cells(samples@, res as int),
        r.1.len() == volume(res as int),
        numbered(samples@, res as int, r.1@),
{
    let mut cells: Vec<GridPoint> = Vec::new();
    let mut numbers: Vec<u32> = Vec::new();
    let ghost visit = cell_visit(samples@, res as int);
    let ghost lo = origin();
    let ghost hi = far(res as int);
    let mut i: usize = 0;
    proof {
        lemma_scan_ends(visit, lo, hi);
        lemma_flat_carries(res as int, 0, 0);
    }
    while i < res
        invariant
            samples.len() == volume(res + 1),
            visit == cell_visit(samples@, res as int),
            lo == origin(),
            hi == far(res as int),
            i <= res,
            cells@ == scan_before(visit, lo, hi, i as int, 0, 0),
            numbers.len() == flat(res as int, i as int, 0, 0),
            numbered(samples@, res as int, numbers@),
        decreases res - i,
    {
        let mut j: usize = 0;
        while j < res
            invariant
                samples.len() == volume(res + 1),
                visit == cell_visit(samples@, res as int),
                lo == origin(),
                hi == far(res as int),
                i < res,
                j <= res,
                cells@ == scan_before(visit, lo, hi, i as int, j as int, 0),
                numbers.len() == flat(res as int, i as int, j as int, 0),
                numbered(samples@, res as int, numbers@),
            decreases res - j,
        {
            let mut k: usize = 0;
            while k < res
                invariant
                    samples.len() == volume(res + 1),
                    visit == cell_visit(samples@, res as int),
                    lo == origin(),
                    hi == far(res as int),
                    i < res,
                    j < res,
                    k <= res,
                    cells@ == scan_before(visit, lo, hi, i as int, j as int, k as int),
                    numbers.len() == flat(res as int, i as int, j as int, k as int),
                    numbered(samples@, res as int, numbers@),
                decreases res - k,
            {
                let ghost before = numbers@;
                if is_mixed(samples, res, i, j, k) {
                    let number = low_bits(cells.len());
                    numbers.push(number);
                    cells.push(GridPoint { i, j, k });
                } else {
                    numbers.push(NO_VERTEX);
                }
                proof {
                    reveal(vertex_number);
                    lemma_scan_step(visit, lo, hi, i as int, j as int, k as int);
                    assert(cells@ =~= scan_before(visit, lo, hi, i as int, j as int, k + 1));
                    assert forall|x: int, y: int, z: int|
                        in_box(origin(), far(res as int), x, y, z) && #[trigger] flat(
                            res as int,
                            x,
                            y,
                            z,
                        ) < numbers.len() implies numbers@[flat(res as int, x, y, z)]
                        == vertex_number(samples@, res as int, x, y, z) by {
                        lemma_flat_bounds(res as int, x, y, z);
                        if flat(res as int, x, y, z) == before.len() {
                            law_flat_is_injective(
                                res as int,
                                (x, y, z),
                                (i as int, j as int, k as int),
                            );
                        } else {
                            assert(numbers@[flat(res as int, x, y, z)] == before[flat(
                                res as int,
                                x,
                                y,
                                z,
                            )]);
                        }
                    }
                }
                k = k + 1;
            }
            proof {
                lemma_scan_row_end(visit, lo, hi, i as int, j as int);
                lemma_flat_carries(res as int, i as int, j as int);
            }
            j = j + 1;
        }
        proof {
            lemma_scan_plane_end(visit, lo, hi, i as int);
            lemma_flat_carries(res as int, i as int, 0);
        }
        i = i + 1;
    }
    proof {
        lemma_flat_carries(res as int, 0, 0);
    }
    (cells, numbers)
}

/// The low 32 bits of a count.
fn low_bits(n: usize) -> (r: u32)
    ensures
        r == n as int % 0x1_0000_0000,
{
    let wide: u64 = n as u64;
    assert(wide as u32 == wide % 0x1_0000_0000) by (bit_vector);
    wide as u32
}

/// Adds the triangles across one edge, unless one of its cells has no vertex.
fn quad(a: u32, b: u32, c: u32, e: u32, flip: bool, out: &mut Vec<u32>)
    ensures
        final(out)@ == old(out)@ + (if a == NO_VERTEX || b == NO_VERTEX || c == NO_VERTEX || e
            == NO_VERTEX {
            Seq::<u32>::empty()
        } else if flip {
            seq![a, b, c, a, c, e]
        } else {
            seq![a, c, b, a, e, c]
        }),
{
    if a == NO_VERTEX || b == NO_VERTEX || c == NO_VERTEX || e == NO_VERTEX {
        return;
    }
    out.push(a);
    if flip {
        out.push(b);
        out.push(c);
        out.push(a);
        out.push(c);
        out.push(e);
    } else {
        out.push(c);
        out.push(b);
        out.push(a);
        out.push(e);
        out.push(c);
    }
}

/// The vertex number of a cell.
fn number_of(samples: &Vec<Scalar>, numbers: &Vec<u32>, res: usize, i: usize, j: usize, k: usize) -> (r: u32)
    requires
        numbers.len() == volume(res as int),
        numbered(samples@, res as int, numbers@),
        in_box(origin(), far(res as int), i as int, j as int, k as int),
    ensures
        r == vertex_number(samples@, res as int, i as int, j as int, k as int),
{
    numbers[flat_place(res, i, j, k)]
}

/// Adds the triangles across the edge that starts at `(i, j, k)`.
fn cross_edge(
    samples: &Vec<Scalar>,
    numbers: &Vec<u32>,
    res: usize,
    axis: Axis,
    i: usize,
    j: usize,
    k: usize,
    out: &mut Vec<u32>,
)
    requires
        samples.len() == volume(res + 1),
        numbers.len() == volume(res as int),
        numbered(samples@, res as int, numbers@),
        in_box(first_edge(axis), far(res as int), i as int, j as int, k as int),
    ensures
        final(out)@ == old(out)@ + edge_indices(
            samples@,
            res as int,
            axis,
            i as int,
            j as int,
            k as int,
        ),
{
    reveal(edge_indices);
    let ghost visited = edge_indices(samples@, res as int, axis, i as int, j as int, k as int);
    let s0 = is_inside(samples, res, i, j, k);
    let s1 = match axis {
        Axis::X => is_inside(samples, res, i + 1, j, k),
        Axis::Y => is_inside(samples, res, i, j + 1, k),
        Axis::Z => is_inside(samples, res, i, j, k + 1),
    };
    if s0 == s1 {
        assert(old(out)@ + visited =~= old(out)@);
        return;
    }
    let (a, b, e) = match axis {
        Axis::X => (
            number_of(samples, numbers, res, i, j - 1, k - 1),
            number_of(samples, numbers, res, i, j, k - 1),
            number_of(samples, numbers, res, i, j - 1, k),
        ),
        Axis::Y => (
            number_of(samples, numbers, res, i - 1, j, k - 1),
            number_of(samples, numbers, res, i, j, k - 1),
            number_of(samples, numbers, res, i - 1, j, k),
        ),
        Axis::Z => (
            number_of(samples, numbers, res, i - 1, j - 1, k),
            number_of(samples, numbers, res, i, j - 1, k),
            number_of(samples, numbers, res, i - 1, j, k),
        ),
    };
    let c = number_of(samples, numbers, res, i, j, k);
    let flip = match axis {
        Axis::Y => !s0,
        _ => s0,
    };
    proof {
        let (x, y, z) = (i as int, j as int, k as int);
        assert(a == number_at(samples@, res as int, beside(axis, x, y, z, 1, 1)));
        assert(b == number_at(samples@, res as int, beside(axis, x, y, z, 0, 1)));
        assert(c == number_at(samples@, res as int, beside(axis, x, y, z, 0, 0)));
        assert(e == number_at(samples@, res as int, beside(axis, x, y, z, 1, 0)));
        if a == NO_VERTEX || b == NO_VERTEX || c == NO_VERTEX || e == NO_VERTEX {
            assert(visited =~= Seq::<u32>::empty());
        } else {
            assert forall|u: int, v: int| 0 <= u <= 1 && 0 <= v <= 1 implies number_at(
                samples@,
                res as int,
                #[trigger] beside(axis, x, y, z, u, v),
            ) != NO_VERTEX by {
                assert((u == 0 || u == 1) && (v == 0 || v == 1));
            }
            if flip {
                assert(visited =~= seq![a, b, c, a, c, e]);
            } else {
                assert(visited =~= seq![a, c, b, a, e, c]);
            }
        }
    }
    quad(a, b, c, e, flip, out);
}

/// Adds the triangles across all edges in one direction that have four cells
/// around them.
fn cross_edges(samples: &Vec<Scalar>, numbers: &Vec<u32>, res: usize, axis: Axis, out: &mut Vec<u32>)
    requires
        samples.len() == volume(res + 1),
        numbers.len() == volume(res as int),
        numbered(samples@, res as int, numbers@),
    ensures
        final(out)@ == old(out)@ + axis_indices(samples@, res as int, axis),
{
    let ghost visit = quad_visit(samples@, res as int, axis);
    let ghost lo = first_edge(axis);
    let ghost hi = far(res as int);
    let ghost start = out@;
    proof {
        lemma_scan_ends(visit, lo, hi);
    }
    if res == 0 {
        assert(out@ =~= start + scan(visit, lo, hi));
        return;
    }
    let (i0, j0, k0): (usize, usize, usize) = match axis {
        Axis::X => (0, 1, 1),
        Axis::Y => (1, 0, 1),
        Axis::Z => (1, 1, 0),
    };
    let mut i: usize = i0;
    assert(out@ =~= start + scan_before(visit, lo, hi, i as int, lo.1, lo.2));
    while i < res
        invariant
            samples.len() == volume(res + 1),
            numbers.len() == volume(res as int),
            numbered(samples@, res as int, numbers@),
            visit == quad_visit(samples@, res as int, axis),
            lo == first_edge(axis),
            hi == far(res as int),
            lo == (i0 as int, j0 as int, k0 as int),
            j0 <= 1 <= res,
            k0 <= 1,
            i0 <= i <= res,
            out@ == start + scan_before(visit, lo, hi, i as int, lo.1, lo.2),
        decreases res - i,
    {
        let mut j: usize = j0;
        while j < res
            invariant
                samples.len() == volume(res + 1),
                numbers.len() == volume(res as int),
                numbered(samples@, res as int, numbers@),
                visit == quad_visit(samples@, res as int, axis),
                lo == first_edge(axis),
                hi == far(res as int),
                lo == (i0 as int, j0 as int, k0 as int),
                k0 <= 1 <= res,
                i0 <= i < res,
                j0 <= j <= res,
                out@ == start + scan_before(visit, lo, hi, i as int, j as int, lo.2),
            decreases res - j,
        {
            let mut k: usize = k0;
            while k < res
                invariant
                    samples.len() == volume(res + 1),
                    numbers.len() == volume(res as int),
                    numbered(samples@, res as int, numbers@),
                    visit == quad_visit(samples@, res as int, axis),
                    lo == first_edge(axis),
                    hi == far(res as int),
                    lo == (i0 as int, j0 as int, k0 as int),
                    i0 <= i < res,
                    j0 <= j < res,
                    k0 <= k <= res,
                    out@ == start + scan_before(visit, lo, hi, i as int, j as int, k as int),
                decreases res - k,
            {
                cross_edge(samples, numbers, res, axis, i, j, k, out);
                proof {
                    lemma_scan_step(visit, lo, hi, i as int, j as int, k as int);
                    assert(out@ =~= start + scan_before(visit, lo, hi, i as int, j as int, k + 1));
                }
                k = k + 1;
            }
            proof {
                lemma_scan_row_end(visit, lo, hi, i as int, j as int);
            }
            j = j + 1;
        }
        proof {
            lemma_scan_plane_end(visit, lo, hi, i as int);
        }
        i = i + 1;
    }
}

/// Finds the net of a field that has been sampled at every grid corner.
pub fn stitch(samples: Vec<Scalar>, res: usize) -> (net: Net)
    requires
        samples.len() == volume(res + 1),
    ensures
        net.wf(),
        net.res == res,
        net.samples == samples,
        net.cells@ == surface_cells(samples@, res as int),
        net.indices@ == surface_indices(samples@, res as int),
{
    let (cells, numbers) = number_cells(&samples, res);
    let mut indices: Vec<u32> = Vec::new();
    cross_edges(&samples, &numbers, res, Axis::X, &mut indices);
    cross_edges(&samples, &numbers, res, Axis::Y, &mut indices);
    cross_edges(&samples, &numbers, res, Axis::Z, &mut indices);
    assert(indices@ =~= surface_indices(samples@, res as int));
    Net { res, samples, cells, indices }
}

/// Every cell that owns a vertex is a cell of the grid.
proof fn lemma_cells_in_grid(samples: Seq<Scalar>, res: int)
    requires
        0 <= res <= usize::MAX,
    ensures
        forall|v: int|
            0 <= v < surface_cells(samples, res).len() ==> {
                let c = #[trigger] surface_cells(samples, res)[v];
                c.i < res && c.j < res && c.k < res && mixed(
                    samples,
                    res,
                    c.i as int,
                    c.j as int,
                    c.k as int,
                )
            },
{
    let p = |c: GridPoint|
        c.i < res && c.j < res && c.k < res && mixed(
            samples,
            res,
            c.i as int,
            c.j as int,
            c.k as int,
        );
    lemma_scan_all(cell_visit(samples, res), origin(), far(res), p);
}

impl Net {
    /// The points where the surface crosses the edges of the cell that owns
    /// vertex `v`, in the order of the edges.
    pub fn crossings(&self, v: usize) -> (r: Vec<Crossing>)
        requires
            self.wf(),
            v < self.cells.len(),
        ensures
            r@ == self.crossings_of(v as int),
            lists_crossings(self.samples@, self.res as int, self.cells@[v as int], r@),
    {
        proof {
            lemma_cells_in_grid(self.samples@, self.res as int);
            lemma_flat_bounds(self.res + 1, 0, 0, 0);
            law_crossings_are_those_of_the_cell(
                self.samples@,
                self.res as int,
                self.cells@[v as int],
            );
        }
        let cell = self.cells[v];
        cell_crossings(&self.samples, self.res, cell.i, cell.j, cell.k)
    }

    /// The crossings from which vertex `v` is placed.
    pub open spec fn crossings_of(self, v: int) -> Seq<Crossing> {
        let cell = self.cells@[v];
        crossings_on(
            self.samples@,
            self.res as int,
            cell.i as int,
            cell.j as int,
            cell.k as int,
            12,
        )
    }
}

/// A pair of values for each axis: one for a point a little ahead along the axis,
/// and one for a point a little behind.
#[derive(Debug)]
pub struct Around<T> {
    pub x: (T, T),
    pub y: (T, T),
    pub z: (T, T),
}

/// What ties a grid to the points of some space.
///
/// The net is the same whatever the points are and however they are computed.
pub struct Embedding<C, V, A, G> {
    /// The point at a grid corner.
    pub corner: C,
    /// The point for a vertex, given the crossings around it.
    pub place: V,
    /// The points close to a point, ahead and behind along each axis.
    pub around: A,
    /// The normal of a surface, given the field at those points.
    pub slope: G,
}

/// What a field may be: which values it may have at which points.
pub type Field<P> = spec_fn(P, Scalar) -> bool;

/// What an executable field may return.
pub open spec fn graph<P, F: Fn(P) -> Scalar>(field: F) -> Field<P> {
    |p: P, value: Scalar| call_ensures(field, (p,), value)
}

/// Whether this may be the field at a grid corner.
pub open spec fn is_sample<P, C: Fn(usize, usize, usize) -> P>(
    field: Field<P>,
    corner: C,
    i: usize,
    j: usize,
    k: usize,
    value: Scalar,
) -> bool {
    exists|p: P| #[trigger] call_ensures(corner, (i, j, k), p) && field(p, value)
}

/// Whether these may be the samples of a field at the corners of a grid.
pub open spec fn sampled<P, C: Fn(usize, usize, usize) -> P>(
    field: Field<P>,
    corner: C,
    res: usize,
    samples: Seq<Scalar>,
) -> bool {
    &&& samples.len() == volume(res + 1)
    &&& forall|i: usize, j: usize, k: usize|
        i <= res && j <= res && k <= res ==> is_sample(
            field,
            corner,
            i,
            j,
            k,
            samples[#[trigger] flat(res + 1, i as int, j as int, k as int)],
        )
}

/// Samples a field at every grid corner.
pub fn sample_grid<P, F: Fn(P) -> Scalar, C: Fn(usize, usize, usize) -> P>(
    field: &F,
    corner: &C,
    res: usize,
) -> (samples: Vec<Scalar>)
    requires
        volume(res + 1) <= usize::MAX,
        forall|i: usize, j: usize, k: usize|
            i <= res && j <= res && k <= res ==> call_requires(*corner, (i, j, k)),
        forall|p: P| call_requires(*field, (p,)),
    ensures
        sampled(graph(*field), *corner, res, samples@),
{
    proof {
        lemma_flat_bounds(res + 1, 0, 0, 0);
        lemma_flat_carries(res + 1, 0, 0);
    }
    let d: usize = res + 1;
    let mut samples: Vec<Scalar> = Vec::new();
    let mut i: usize = 0;
    while i < d
        invariant
            d == res + 1,
            forall|i: usize, j: usize, k: usize|
                i <= res && j <= res && k <= res ==> call_requires(*corner, (i, j, k)),
            forall|p: P| call_requires(*field, (p,)),
            i <= d,
            samples.len() == flat(d as int, i as int, 0, 0),
            partly_sampled(graph(*field), *corner, res, samples@),
        decreases d - i,
    {
        let mut j: usize = 0;
        while j < d
            invariant
                d == res + 1,
                forall|i: usize, j: usize, k: usize|
                    i <= res && j <= res && k <= res ==> call_requires(*corner, (i, j, k)),
                forall|p: P| call_requires(*field, (p,)),
                i < d,
                j <= d,
                samples.len() == flat(d as int, i as int, j as int, 0),
                partly_sampled(graph(*field), *corner, res, samples@),
            decreases d - j,
        {
            let mut k: usize = 0;
            while k < d
                invariant
                    d == res + 1,
                    forall|i: usize, j: usize, k: usize|
                        i <= res && j <= res && k <= res ==> call_requires(*corner, (i, j, k)),
                    forall|p: P| call_requires(*field, (p,)),
                    i < d,
                    j < d,
                    k <= d,
                    samples.len() == flat(d as int, i as int, j as int, k as int),
                    partly_sampled(graph(*field), *corner, res, samples@),
                decreases d - k,
            {
                let ghost before = samples@;
                let value = field(corner(i, j, k));
                samples.push(value);
                proof {
                    let may = graph(*field);
                    assert(is_sample(may, *corner, i, j, k, value));
                    assert forall|x: usize, y: usize, z: usize|
                        x <= res && y <= res && z <= res && #[trigger] flat(
                            res + 1,
                            x as int,
                            y as int,
                            z as int,
                        ) < samples.len() implies is_sample(
                        may,
                        *corner,
                        x,
                        y,
                        z,
                        samples@[flat(res + 1, x as int, y as int, z as int)],
                    ) by {
                        let at = flat(res + 1, x as int, y as int, z as int);
                        lemma_flat_bounds(res + 1, x as int, y as int, z as int);
                        if at == before.len() {
                            law_flat_is_injective(
                                res + 1,
                                (x as int, y as int, z as int),
                                (i as int, j as int, k as int),
                            );
                        } else {
                            assert(samples@[at] == before[at]);
                        }
                    }
                }
                k = k + 1;
            }
            proof {
                lemma_flat_carries(d as int, i as int, j as int);
            }
            j = j + 1;
        }
        proof {
            lemma_flat_carries(d as int, i as int, 0);
        }
        i = i + 1;
    }
    proof {
        lemma_flat_carries(d as int, 0, 0);
        assert forall|x: usize, y: usize, z: usize|
            x <= res && y <= res && z <= res implies is_sample(
            graph(*field),
            *corner,
            x,
            y,
            z,
            samples@[#[trigger] flat(res + 1, x as int, y as int, z as int)],
        ) by {
            lemma_flat_bounds(res + 1, x as int, y as int, z as int);
        }
    }
    samples
}

/// What is known of the samples while the corners are walked.
spec fn partly_sampled<P, C: Fn(usize, usize, usize) -> P>(
    field: Field<P>,
    corner: C,
    res: usize,
    samples: Seq<Scalar>,
) -> bool {
    forall|i: usize, j: usize, k: usize|
        i <= res && j <= res && k <= res && #[trigger] flat(
            res + 1,
            i as int,
            j as int,
            k as int,
        ) < samples.len() ==> is_sample(
            field,
            corner,
            i,
            j,
            k,
            samples[flat(res + 1, i as int, j as int, k as int)],
        )
}

/// Whether these may be the values of a field at six points.
pub open spec fn probed<P>(field: Field<P>, points: Around<P>, values: Around<Scalar>) -> bool {
    &&& field(points.x.0, values.x.0)
    &&& field(points.x.1, values.x.1)
    &&& field(points.y.0, values.y.0)
    &&& field(points.y.1, values.y.1)
    &&& field(points.z.0, values.z.0)
    &&& field(points.z.1, values.z.1)
}

/// Whether this may be the normal of a field at `p`: the slope of values that the
/// field may have around `p`.
pub open spec fn is_gradient<P, N, A: Fn(P) -> Around<P>, G: Fn(Around<Scalar>) -> N>(
    field: Field<P>,
    around: A,
    slope: G,
    p: P,
    normal: N,
) -> bool {
    exists|points: Around<P>, values: Around<Scalar>| #[trigger]
        call_ensures(around, (p,), points) && #[trigger] probed(field, points, values)
            && call_ensures(slope, (values,), normal)
}

/// The gradient of a field by central differences. Uphill is away from the
/// surface, so this is the outward normal.
pub fn field_gradient<P, N, F: Fn(P) -> Scalar, A: Fn(P) -> Around<P>, G: Fn(Around<Scalar>) -> N>(
    field: &F,
    around: &A,
    slope: &G,
    p: P,
) -> (normal: N)
    requires
        forall|p: P| call_requires(*field, (p,)),
        call_requires(*around, (p,)),
        forall|values: Around<Scalar>| call_requires(*slope, (values,)),
    ensures
        is_gradient(graph(*field), *around, *slope, p, normal),
{
    let points = around(p);
    let Around { x: (ahead_x, behind_x), y: (ahead_y, behind_y), z: (ahead_z, behind_z) } = points;
    let values = Around {
        x: (field(ahead_x), field(behind_x)),
        y: (field(ahead_y), field(behind_y)),
        z: (field(ahead_z), field(behind_z)),
    };
    assert(probed(graph(*field), points, values));
    slope(values)
}

/// One more crossing where an edge is crossed, and none elsewhere.
proof fn lemma_crossing_count(samples: Seq<Scalar>, res: int, i: int, j: int, k: int, n: int)
    requires
        0 < n,
    ensures
        crossings_on(samples, res, i, j, k, n).len() == crossings_on(
            samples,
            res,
            i,
            j,
            k,
            n - 1,
        ).len() + (if edge_crossed(samples, res, i, j, k, n - 1) {
            1int
        } else {
            0int
        }),
{
}

/// A cell that the surface passes through has at least three of its twelve edges
/// crossed, so there is always something to place its vertex from.
pub proof fn law_mixed_cell_has_crossings(samples: Seq<Scalar>, res: int, i: int, j: int, k: int)
    requires
        mixed(samples, res, i, j, k),
    ensures
        3 <= crossings_on(samples, res, i, j, k, 12).len() <= 12,
{
    reveal(mixed);
    lemma_crossing_count(samples, res, i, j, k, 1);
    lemma_crossing_count(samples, res, i, j, k, 2);
    lemma_crossing_count(samples, res, i, j, k, 3);
    lemma_crossing_count(samples, res, i, j, k, 4);
    lemma_crossing_count(samples, res, i, j, k, 5);
    lemma_crossing_count(samples, res, i, j, k, 6);
    lemma_crossing_count(samples, res, i, j, k, 7);
    lemma_crossing_count(samples, res, i, j, k, 8);
    lemma_crossing_count(samples, res, i, j, k, 9);
    lemma_crossing_count(samples, res, i, j, k, 10);
    lemma_crossing_count(samples, res, i, j, k, 11);
    lemma_crossing_count(samples, res, i, j, k, 12);
}

/// Whether `place` may give this position for a vertex with these crossings.
pub open spec fn placed<P, V: Fn(&Vec<Crossing>) -> P>(
    place: V,
    crossings: Seq<Crossing>,
    position: P,
) -> bool {
    exists|found: Vec<Crossing>|
        found@ == crossings && #[trigger] call_ensures(place, (&found,), position)
}

/// Whether these may be the positions and normals of the vertices of a surface:
/// each vertex is placed from the crossings of its own cell, and each normal is
/// the gradient of the field at its vertex.
pub open spec fn embedded<
    P,
    N,
    C,
    V: Fn(&Vec<Crossing>) -> P,
    A: Fn(P) -> Around<P>,
    G: Fn(Around<Scalar>) -> N,
>(
    field: Field<P>,
    samples: Seq<Scalar>,
    res: int,
    embedding: Embedding<C, V, A, G>,
    positions: Seq<P>,
    normals: Seq<N>,
) -> bool {
    let cells = surface_cells(samples, res);
    &&& positions.len() == cells.len()
    &&& normals.len() == cells.len()
    &&& forall|v: int|
        0 <= v < cells.len() ==> placed(
            embedding.place,
            crossings_on(
                samples,
                res,
                cells[v].i as int,
                cells[v].j as int,
                cells[v].k as int,
                12,
            ),
            #[trigger] positions[v],
        )
    &&& forall|v: int|
        0 <= v < cells.len() ==> is_gradient(
            field,
            embedding.around,
            embedding.slope,
            positions[v],
            #[trigger] normals[v],
        )
}

/// Whether an embedding can be asked for everything that a grid needs.
pub open spec fn embeddable<
    P,
    N,
    C: Fn(usize, usize, usize) -> P,
    V: Fn(&Vec<Crossing>) -> P,
    A: Fn(P) -> Around<P>,
    G: Fn(Around<Scalar>) -> N,
>(res: usize, embedding: Embedding<C, V, A, G>) -> bool {
    &&& forall|i: usize, j: usize, k: usize|
        i <= res && j <= res && k <= res ==> call_requires(embedding.corner, (i, j, k))
    &&& forall|found: &Vec<Crossing>|
        3 <= found.len() <= 12 ==> #[trigger] call_requires(embedding.place, (found,))
    &&& forall|p: P| call_requires(embedding.around, (p,))
    &&& forall|values: Around<Scalar>| call_requires(embedding.slope, (values,))
}

/// Whether this may be the surface of a field: for samples that the field may have
/// at the grid corners, the vertices of the cells that the surface passes through,
/// and the triangles across the edges that it crosses.
pub open spec fn is_surface<
    P,
    N,
    C: Fn(usize, usize, usize) -> P,
    V: Fn(&Vec<Crossing>) -> P,
    A: Fn(P) -> Around<P>,
    G: Fn(Around<Scalar>) -> N,
>(
    field: Field<P>,
    res: usize,
    embedding: Embedding<C, V, A, G>,
    positions: Seq<P>,
    normals: Seq<N>,
    indices: Seq<u32>,
) -> bool {
    exists|samples: Seq<Scalar>| #[trigger]
        sampled(field, embedding.corner, res, samples) && embedded(
            field,
            samples,
            res as int,
            embedding,
            positions,
            normals,
        ) && indices == surface_indices(samples, res as int)
}

/// The surface of any field, as vertex positions, vertex normals and vertex
/// numbers of triangles.
pub fn surface_nets<
    P: Copy,
    N,
    F: Fn(P) -> Scalar,
    C: Fn(usize, usize, usize) -> P,
    V: Fn(&Vec<Crossing>) -> P,
    A: Fn(P) -> Around<P>,
    G: Fn(Around<Scalar>) -> N,
>(field: F, res: usize, embedding: &Embedding<C, V, A, G>) -> (r: (Vec<P>, Vec<N>, Vec<u32>))
    requires
        volume(res + 1) <= usize::MAX,
        forall|p: P| call_requires(field, (p,)),
        embeddable(res, *embedding),
    ensures
        is_surface(graph(field), res, *embedding, r.0@, r.1@, r.2@),
{
    let samples = sample_grid(&field, &embedding.corner, res);
    let net = stitch(samples, res);
    let mut positions: Vec<P> = Vec::new();
    let mut normals: Vec<N> = Vec::new();
    proof {
        lemma_cells_in_grid(samples@, res as int);
    }
    for v in 0..net.cells.len()
        invariant
            net.wf(),
            positions.len() == v,
            normals.len() == v,
            forall|v: int|
                0 <= v < net.cells.len() ==> {
                    let c = #[trigger] net.cells@[v];
                    mixed(net.samples@, net.res as int, c.i as int, c.j as int, c.k as int)
                },
            forall|p: P| call_requires(field, (p,)),
            embeddable(res, *embedding),
            forall|n: int|
                0 <= n < v ==> placed(
                    embedding.place,
                    net.crossings_of(n),
                    #[trigger] positions@[n],
                ),
            forall|n: int|
                0 <= n < v ==> is_gradient(
                    graph(field),
                    embedding.around,
                    embedding.slope,
                    positions@[n],
                    #[trigger] normals@[n],
                ),
    {
        let found = net.crossings(v);
        proof {
            let c = net.cells@[v as int];
            law_mixed_cell_has_crossings(
                net.samples@,
                net.res as int,
                c.i as int,
                c.j as int,
                c.k as int,
            );
        }
        let position = (embedding.place)(&found);
        let normal = field_gradient(&field, &embedding.around, &embedding.slope, position);
        let ghost before = positions@;
        let ghost normals_before = normals@;
        positions.push(position);
        normals.push(normal);
        proof {
            assert(placed(embedding.place, net.crossings_of(v as int), position));
            assert forall|n: int| 0 <= n < v + 1 implies placed(
                embedding.place,
                net.crossings_of(n),
                #[trigger] positions@[n],
            ) by {
                if n < v {
                    assert(positions@[n] == before[n]);
                }
            }
            assert forall|n: int| 0 <= n < v + 1 implies is_gradient(
                graph(field),
                embedding.around,
                embedding.slope,
                positions@[n],
                #[trigger] normals@[n],
            ) by {
                if n < v {
                    assert(positions@[n] == before[n]);
                    assert(normals@[n] == normals_before[n]);
                }
            }
        }
    }
    proof {
        assert(embedded(
            graph(field),
            samples@,
            res as int,
            *embedding,
            positions@,
            normals@,
        ));
        assert(sampled(graph(field), embedding.corner, res, samples@));
    }
    (positions, normals, net.indices)
}

/// A field with fewer possible values has fewer possible surfaces.
pub(crate) proof fn lemma_surface_of_wider_field<
    P,
    N,
    C: Fn(usize, usize, usize) -> P,
    V: Fn(&Vec<Crossing>) -> P,
    A: Fn(P) -> Around<P>,
    G: Fn(Around<Scalar>) -> N,
>(
    narrow: Field<P>,
    wide: Field<P>,
    res: usize,
    embedding: Embedding<C, V, A, G>,
    positions: Seq<P>,
    normals: Seq<N>,
    indices: Seq<u32>,
)
    requires
        forall|p: P, value: Scalar| #[trigger] narrow(p, value) ==> wide(p, value),
        is_surface(narrow, res, embedding, positions, normals, indices),
    ensures
        is_surface(wide, res, embedding, positions, normals, indices),
{
    let samples = choose|samples: Seq<Scalar>| #[trigger]
        sampled(narrow, embedding.corner, res, samples) && embedded(
            narrow,
            samples,
            res as int,
            embedding,
            positions,
            normals,
        ) && indices == surface_indices(samples, res as int);
    assert forall|i: usize, j: usize, k: usize|
        i <= res && j <= res && k <= res implies is_sample(
        wide,
        embedding.corner,
        i,
        j,
        k,
        samples[#[trigger] flat(res + 1, i as int, j as int, k as int)],
    ) by {
        let value = samples[flat(res + 1, i as int, j as int, k as int)];
        assert(is_sample(narrow, embedding.corner, i, j, k, value));
    }
    assert(sampled(wide, embedding.corner, res, samples));
    assert forall|v: int| 0 <= v < normals.len() implies is_gradient(
        wide,
        embedding.around,
        embedding.slope,
        positions[v],
        #[trigger] normals[v],
    ) by {
        assert(is_gradient(narrow, embedding.around, embedding.slope, positions[v], normals[v]));
        let (points, values) = choose|points: Around<P>, values: Around<Scalar>| #[trigger]
            call_ensures(embedding.around, (positions[v],), points) && #[trigger] probed(
                narrow,
                points,
                values,
            ) && call_ensures(embedding.slope, (values,), normals[v]);
        assert(probed(wide, points, values));
    }
    assert(embedded(wide, samples, res as int, embedding, positions, normals));
}

/// Whether a field has one value at each point.
pub open spec fn one_valued<P>(field: Field<P>) -> bool {
    forall|p: P, x: Scalar, y: Scalar| #[trigger] field(p, x) && #[trigger] field(p, y) ==> x == y
}

/// Whether the points around a point, and the slope of given values, are always the
/// same.
pub open spec fn definite_gradient<P, N, A: Fn(P) -> Around<P>, G: Fn(Around<Scalar>) -> N>(
    around: A,
    slope: G,
) -> bool {
    &&& forall|p: P, x: Around<P>, y: Around<P>| #[trigger]
        call_ensures(around, (p,), x) && #[trigger] call_ensures(around, (p,), y) ==> x == y
    &&& forall|values: Around<Scalar>, x: N, y: N| #[trigger]
        call_ensures(slope, (values,), x) && #[trigger] call_ensures(slope, (values,), y) ==> x
            == y
}

/// Whether an embedding always answers the same question in the same way.
pub open spec fn definite<
    P,
    N,
    C: Fn(usize, usize, usize) -> P,
    V: Fn(&Vec<Crossing>) -> P,
    A: Fn(P) -> Around<P>,
    G: Fn(Around<Scalar>) -> N,
>(embedding: Embedding<C, V, A, G>) -> bool {
    &&& forall|i: usize, j: usize, k: usize, x: P, y: P| #[trigger]
        call_ensures(embedding.corner, (i, j, k), x) && #[trigger] call_ensures(
            embedding.corner,
            (i, j, k),
            y,
        ) ==> x == y
    &&& forall|crossings: Seq<Crossing>, x: P, y: P| #[trigger]
        placed(embedding.place, crossings, x) && #[trigger] placed(embedding.place, crossings, y)
            ==> x == y
    &&& definite_gradient(embedding.around, embedding.slope)
}

/// A field has one surface: where the field has one value at each point and the
/// embedding always answers the same, positions, normals and triangles are the same
/// whenever they are asked for.
pub proof fn law_surface_is_a_function<
    P,
    N,
    C: Fn(usize, usize, usize) -> P,
    V: Fn(&Vec<Crossing>) -> P,
    A: Fn(P) -> Around<P>,
    G: Fn(Around<Scalar>) -> N,
>(
    field: Field<P>,
    res: usize,
    embedding: Embedding<C, V, A, G>,
    first: (Seq<P>, Seq<N>, Seq<u32>),
    second: (Seq<P>, Seq<N>, Seq<u32>),
)
    requires
        one_valued(field),
        definite(embedding),
        is_surface(field, res, embedding, first.0, first.1, first.2),
        is_surface(field, res, embedding, second.0, second.1, second.2),
    ensures
        first == second,
{
    let a = choose|samples: Seq<Scalar>| #[trigger]
        sampled(field, embedding.corner, res, samples) && embedded(
            field,
            samples,
            res as int,
            embedding,
            first.0,
            first.1,
        ) && first.2 == surface_indices(samples, res as int);
    let b = choose|samples: Seq<Scalar>| #[trigger]
        sampled(field, embedding.corner, res, samples) && embedded(
            field,
            samples,
            res as int,
            embedding,
            second.0,
            second.1,
        ) && second.2 == surface_indices(samples, res as int);
    assert forall|n: int| 0 <= n < a.len() implies a[n] == b[n] by {
        let at = law_flat_is_onto(res + 1, n);
        let (i, j, k) = (at.0 as usize, at.1 as usize, at.2 as usize);
        assert(flat(res + 1, i as int, j as int, k as int) == n);
        assert(is_sample(field, embedding.corner, i, j, k, a[n]));
        assert(is_sample(field, embedding.corner, i, j, k, b[n]));
    }
    assert(a =~= b);
    assert forall|v: int| 0 <= v < first.0.len() implies first.0[v] == second.0[v] by {
        let c = surface_cells(a, res as int)[v];
        let crossings = crossings_on(a, res as int, c.i as int, c.j as int, c.k as int, 12);
        assert(placed(embedding.place, crossings, first.0[v]));
        assert(placed(embedding.place, crossings, second.0[v]));
    }
    assert(first.0 =~= second.0);
    assert forall|v: int| 0 <= v < first.1.len() implies first.1[v] == second.1[v] by {
        let p = first.0[v];
        assert(is_gradient(field, embedding.around, embedding.slope, p, first.1[v]));
        assert(is_gradient(field, embedding.around, embedding.slope, p, second.1[v]));
        law_gradient_is_a_function(
            field,
            embedding.around,
            embedding.slope,
            p,
            first.1[v],
            second.1[v],
        );
    }
    assert(first.1 =~= second.1);
}

/// A field has one normal at a point: where the field has one value at each point,
/// and the points around and the slope are always the same.
pub proof fn law_gradient_is_a_function<P, N, A: Fn(P) -> Around<P>, G: Fn(Around<Scalar>) -> N>(
    field: Field<P>,
    around: A,
    slope: G,
    p: P,
    a: N,
    b: N,
)
    requires
        one_valued(field),
        definite_gradient(around, slope),
        is_gradient(field, around, slope, p, a),
        is_gradient(field, around, slope, p, b),
    ensures
        a == b,
{
    let (points_a, values_a) = choose|points: Around<P>, values: Around<Scalar>| #[trigger]
        call_ensures(around, (p,), points) && #[trigger] probed(field, points, values)
            && call_ensures(slope, (values,), a);
    let (points_b, values_b) = choose|points: Around<P>, values: Around<Scalar>| #[trigger]
        call_ensures(around, (p,), points) && #[trigger] probed(field, points, values)
            && call_ensures(slope, (values,), b);
    assert(points_a == points_b);
    assert(values_a == values_b);
}

/// A corner is inside exactly where its own sample is a number below zero.
pub proof fn law_inside_is_a_negative_sample(samples: Seq<Scalar>, res: int, i: int, j: int, k: int)
    ensures
        inside(samples, res, i, j, k) <==> {
            let sample = samples[(i * (res + 1) + j) * (res + 1) + k];
            !sample.not_a_number() && sample.units() < 0
        },
{
    law_comparison_is_by_value(samples[flat(res + 1, i, j, k)], Scalar { bits: 0 });
}

/// The eight corners of a cell are the points that add zero or one to each of its
/// coordinates, by the bits of the corner's number.
pub proof fn law_corners_surround_the_cell(i: int, j: int, k: int, dx: int, dy: int, dz: int)
    requires
        0 <= dx <= 1,
        0 <= dy <= 1,
        0 <= dz <= 1,
    ensures
        corner_of(i, j, k, dx + 2 * dy + 4 * dz) == (i + dx, j + dy, k + dz),
{
    assert((dx == 0 || dx == 1) && (dy == 0 || dy == 1) && (dz == 0 || dz == 1));
}

/// Whether two corners of a cell have different signs: the corners that add the first
/// three and the last three numbers to its coordinates.
pub open spec fn signs_differ(
    samples: Seq<Scalar>,
    res: int,
    i: int,
    j: int,
    k: int,
    d: Point,
    e: Point,
) -> bool {
    &&& 0 <= d.0 <= 1 && 0 <= d.1 <= 1 && 0 <= d.2 <= 1
    &&& 0 <= e.0 <= 1 && 0 <= e.1 <= 1 && 0 <= e.2 <= 1
    &&& inside(samples, res, i + d.0, j + d.1, k + d.2) != inside(
        samples,
        res,
        i + e.0,
        j + e.1,
        k + e.2,
    )
}

/// The surface passes through a cell exactly where two of its eight corners have
/// different signs.
pub proof fn law_mixed_cells_have_both_signs(samples: Seq<Scalar>, res: int, i: int, j: int, k: int)
    ensures
        mixed(samples, res, i, j, k) <==> exists|d: Point, e: Point| #[trigger]
            signs_differ(samples, res, i, j, k, d, e),
{
    reveal(mixed);
    if mixed(samples, res, i, j, k) {
        let a = choose|c: int| 0 <= c < 8 && #[trigger] corner_inside(samples, res, i, j, k, c);
        let b = choose|c: int| 0 <= c < 8 && !#[trigger] corner_inside(samples, res, i, j, k, c);
        let d: Point = (a % 2, a / 2 % 2, a / 4);
        let e: Point = (b % 2, b / 2 % 2, b / 4);
        law_corners_surround_the_cell(i, j, k, d.0, d.1, d.2);
        law_corners_surround_the_cell(i, j, k, e.0, e.1, e.2);
        assert(signs_differ(samples, res, i, j, k, d, e));
    }
    if exists|d: Point, e: Point| #[trigger] signs_differ(samples, res, i, j, k, d, e) {
        let (d, e) = choose|d: Point, e: Point| #[trigger]
            signs_differ(samples, res, i, j, k, d, e);
        law_corners_surround_the_cell(i, j, k, d.0, d.1, d.2);
        law_corners_surround_the_cell(i, j, k, e.0, e.1, e.2);
        assert(corner_inside(samples, res, i, j, k, d.0 + 2 * d.1 + 4 * d.2) != corner_inside(
            samples,
            res,
            i,
            j,
            k,
            e.0 + 2 * e.1 + 4 * e.2,
        ));
    }
}

/// Whether a crossing is on an edge of the cell `c`: its ends are two corners of the
/// cell, the second one step further along one coordinate, and it has the samples at
/// just those two corners, of which one is a number below zero and the other is not.
pub open spec fn crosses_edge_of(samples: Seq<Scalar>, res: int, c: GridPoint, x: Crossing) -> bool {
    let d = res + 1;
    let low = (x.a.i - c.i, x.a.j - c.j, x.a.k - c.k);
    let step = (x.b.i - x.a.i, x.b.j - x.a.j, x.b.k - x.a.k);
    &&& 0 <= low.0 <= low.0 + step.0 <= 1
    &&& 0 <= low.1 <= low.1 + step.1 <= 1
    &&& 0 <= low.2 <= low.2 + step.2 <= 1
    &&& step.0 + step.1 + step.2 == 1
    &&& x.at_a == samples[(x.a.i * d + x.a.j) * d + x.a.k]
    &&& x.at_b == samples[(x.b.i * d + x.b.j) * d + x.b.k]
    &&& (!x.at_a.not_a_number() && x.at_a.units() < 0) != (!x.at_b.not_a_number()
        && x.at_b.units() < 0)
}

/// Where a crossing comes in the order of a cell's edges: those along the first
/// coordinate, then those along the second, then those along the third, each by the
/// number of its lower corner.
pub open spec fn edge_place(c: GridPoint, x: Crossing) -> int {
    8 * ((x.b.j - x.a.j) + 2 * (x.b.k - x.a.k)) + (x.a.i - c.i) + 2 * (x.a.j - c.j) + 4 * (x.a.k
        - c.k)
}

/// Whether a list holds the crossings of a cell: each on an edge of the cell itself,
/// each edge at most once and in order, and no edge with different signs at its ends
/// left out.
pub open spec fn lists_crossings(
    samples: Seq<Scalar>,
    res: int,
    c: GridPoint,
    list: Seq<Crossing>,
) -> bool {
    &&& forall|n: int| 0 <= n < list.len() ==> crosses_edge_of(samples, res, c, #[trigger] list[n])
    &&& forall|n: int, m: int|
        0 <= n < m < list.len() ==> edge_place(c, #[trigger] list[n]) < edge_place(
            c,
            #[trigger] list[m],
        )
    &&& forall|x: Crossing| #[trigger]
        crosses_edge_of(samples, res, c, x) ==> list.contains(x)
}

/// Edge `e` of a cell in plain coordinates.
proof fn lemma_edge_in_the_open(samples: Seq<Scalar>, res: int, c: GridPoint, e: int)
    requires
        0 <= e < 12,
        0 <= res <= usize::MAX,
        c.i < res,
        c.j < res,
        c.k < res,
    ensures
        edge_crossed(samples, res, c.i as int, c.j as int, c.k as int, e) <==> crosses_edge_of(
            samples,
            res,
            c,
            edge_samples(samples, res, c.i as int, c.j as int, c.k as int, e),
        ),
        edge_place(c, edge_samples(samples, res, c.i as int, c.j as int, c.k as int, e)) == if e < 4 {
            2 * e
        } else if e < 8 {
            8 + (e - 4) % 2 + 4 * ((e - 4) / 2)
        } else {
            8 + e
        },
{
    assert(e == 0 || e == 1 || e == 2 || e == 3 || e == 4 || e == 5 || e == 6 || e == 7 || e == 8
        || e == 9 || e == 10 || e == 11);
    let x = edge_samples(samples, res, c.i as int, c.j as int, c.k as int, e);
    law_comparison_is_by_value(x.at_a, Scalar { bits: 0 });
    law_comparison_is_by_value(x.at_b, Scalar { bits: 0 });
}

/// A crossing on an edge of a cell is the one that some edge number stands for.
proof fn lemma_edge_number(samples: Seq<Scalar>, res: int, c: GridPoint, x: Crossing) -> (e: int)
    requires
        0 <= res <= usize::MAX,
        c.i < res,
        c.j < res,
        c.k < res,
        crosses_edge_of(samples, res, c, x),
    ensures
        0 <= e < 12,
        x == edge_samples(samples, res, c.i as int, c.j as int, c.k as int, e),
{
    let (u, v, w) = (x.a.i - c.i, x.a.j - c.j, x.a.k - c.k);
    let e = if x.b.i == x.a.i + 1 {
        v + 2 * w
    } else if x.b.j == x.a.j + 1 {
        4 + u + 2 * w
    } else {
        8 + u + 2 * v
    };
    assert(e == 0 || e == 1 || e == 2 || e == 3 || e == 4 || e == 5 || e == 6 || e == 7 || e == 8
        || e == 9 || e == 10 || e == 11);
    let y = edge_samples(samples, res, c.i as int, c.j as int, c.k as int, e);
    assert(x.a == y.a && x.b == y.b);
    e
}

/// What is known of the crossings on the first `n` edges of a cell.
spec fn lists_crossings_so_far(
    samples: Seq<Scalar>,
    res: int,
    c: GridPoint,
    n: int,
    list: Seq<Crossing>,
) -> bool {
    &&& forall|m: int| 0 <= m < list.len() ==> crosses_edge_of(samples, res, c, #[trigger] list[m])
    &&& forall|m: int|
        0 <= m < list.len() ==> n == 12 || edge_place(c, #[trigger] list[m]) < edge_place(
            c,
            edge_samples(samples, res, c.i as int, c.j as int, c.k as int, n),
        )
    &&& forall|l: int, m: int|
        0 <= l < m < list.len() ==> edge_place(c, #[trigger] list[l]) < edge_place(
            c,
            #[trigger] list[m],
        )
    &&& forall|e: int|
        0 <= e < n && edge_crossed(samples, res, c.i as int, c.j as int, c.k as int, e)
            ==> list.contains(
            #[trigger] edge_samples(samples, res, c.i as int, c.j as int, c.k as int, e),
        )
}

proof fn lemma_crossings_so_far(samples: Seq<Scalar>, res: int, c: GridPoint, n: int)
    requires
        0 <= n <= 12,
        0 <= res <= usize::MAX,
        c.i < res,
        c.j < res,
        c.k < res,
    ensures
        lists_crossings_so_far(
            samples,
            res,
            c,
            n,
            crossings_on(samples, res, c.i as int, c.j as int, c.k as int, n),
        ),
    decreases n,
{
    if n > 0 {
        lemma_crossings_so_far(samples, res, c, n - 1);
        lemma_next_crossing(
            samples,
            res,
            c,
            n,
            crossings_on(samples, res, c.i as int, c.j as int, c.k as int, n - 1),
        );
    }
}

proof fn lemma_next_crossing(
    samples: Seq<Scalar>,
    res: int,
    c: GridPoint,
    n: int,
    before: Seq<Crossing>,
)
    requires
        0 < n <= 12,
        0 <= res <= usize::MAX,
        c.i < res,
        c.j < res,
        c.k < res,
        lists_crossings_so_far(samples, res, c, n - 1, before),
    ensures
        lists_crossings_so_far(
            samples,
            res,
            c,
            n,
            if edge_crossed(samples, res, c.i as int, c.j as int, c.k as int, n - 1) {
                before.push(
                    edge_samples(samples, res, c.i as int, c.j as int, c.k as int, n - 1),
                )
            } else {
                before
            },
        ),
{
    let (i, j, k) = (c.i as int, c.j as int, c.k as int);
    lemma_edge_in_the_open(samples, res, c, n - 1);
    if n < 12 {
        lemma_edge_in_the_open(samples, res, c, n);
    }
    let last = edge_samples(samples, res, i, j, k, n - 1);
    let crossed = edge_crossed(samples, res, i, j, k, n - 1);
    let list = if crossed {
        before.push(last)
    } else {
        before
    };
    assert forall|m: int| 0 <= m < list.len() implies crosses_edge_of(
        samples,
        res,
        c,
        #[trigger] list[m],
    ) && (n == 12 || edge_place(c, list[m]) < edge_place(
        c,
        edge_samples(samples, res, i, j, k, n),
    )) by {
        if m < before.len() {
            assert(list[m] == before[m]);
            assert(edge_place(c, before[m]) < edge_place(c, last));
        }
    }
    assert forall|l: int, m: int| 0 <= l < m < list.len() implies edge_place(
        c,
        #[trigger] list[l],
    ) < edge_place(c, #[trigger] list[m]) by {
        assert(list[l] == before[l]);
        assert(edge_place(c, before[l]) < edge_place(c, last));
        if m < before.len() {
            assert(list[m] == before[m]);
        }
    }
    assert forall|e: int|
        0 <= e < n && edge_crossed(samples, res, i, j, k, e) implies list.contains(
        #[trigger] edge_samples(samples, res, i, j, k, e),
    ) by {
        let x = edge_samples(samples, res, i, j, k, e);
        if e < n - 1 {
            assert(before.contains(x));
            let m = choose|m: int| 0 <= m < before.len() && before[m] == x;
            assert(list[m] == x);
        } else {
            assert(list[before.len() as int] == x);
        }
    }
}

proof fn lemma_all_crossings(samples: Seq<Scalar>, res: int, c: GridPoint, list: Seq<Crossing>)
    requires
        0 <= res <= usize::MAX,
        c.i < res,
        c.j < res,
        c.k < res,
        lists_crossings_so_far(samples, res, c, 12, list),
    ensures
        lists_crossings(samples, res, c, list),
{
    assert forall|x: Crossing| #[trigger]
        crosses_edge_of(samples, res, c, x) implies list.contains(x) by {
        let e = lemma_edge_number(samples, res, c, x);
        lemma_edge_in_the_open(samples, res, c, e);
    }
}

/// A vertex is placed from the edges of its own cell: the list it is placed from holds
/// each edge of the cell that has different signs at its ends, once, with the cell's
/// own corners and the samples at them, and nothing else.
pub proof fn law_crossings_are_those_of_the_cell(samples: Seq<Scalar>, res: int, c: GridPoint)
    requires
        0 <= res <= usize::MAX,
        c.i < res,
        c.j < res,
        c.k < res,
    ensures
        lists_crossings(
            samples,
            res,
            c,
            crossings_on(samples, res, c.i as int, c.j as int, c.k as int, 12),
        ),
{
    lemma_crossings_so_far(samples, res, c, 12);
    lemma_all_crossings(
        samples,
        res,
        c,
        crossings_on(samples, res, c.i as int, c.j as int, c.k as int, 12),
    );
}

/// The graph of an executable field is what it may return.
pub proof fn law_graph_is_what_is_returned<P, F: Fn(P) -> Scalar>(field: F, p: P, value: Scalar)
    ensures
        graph(field)(p, value) <==> call_ensures(field, (p,), value),
{
}

/// The gradient is the slope of the field's own values at the six points around:
/// where field, points and slope always answer the same, the slope of those six
/// values, each in its own place, is the gradient.
pub proof fn law_gradient_is_the_slope_of_six_values<
    P,
    N,
    A: Fn(P) -> Around<P>,
    G: Fn(Around<Scalar>) -> N,
>(
    field: Field<P>,
    around: A,
    slope: G,
    p: P,
    normal: N,
    points: Around<P>,
    values: Around<Scalar>,
)
    requires
        one_valued(field),
        definite_gradient(around, slope),
        is_gradient(field, around, slope, p, normal),
        call_ensures(around, (p,), points),
        field(points.x.0, values.x.0),
        field(points.x.1, values.x.1),
        field(points.y.0, values.y.0),
        field(points.y.1, values.y.1),
        field(points.z.0, values.z.0),
        field(points.z.1, values.z.1),
    ensures
        call_ensures(slope, (values,), normal),
{
    let (its_points, its_values) = choose|its_points: Around<P>, its_values: Around<Scalar>|
        #[trigger]
        call_ensures(around, (p,), its_points) && #[trigger] probed(field, its_points, its_values)
            && call_ensures(slope, (its_values,), normal);
    assert(its_points == points);
    assert(its_values == values);
}

/// Whether a position is what `place` may answer to the crossings of the cell `c`.
pub open spec fn placed_from_its_cell<P, V: Fn(&Vec<Crossing>) -> P>(
    samples: Seq<Scalar>,
    res: int,
    c: GridPoint,
    place: V,
    position: P,
) -> bool {
    exists|found: Vec<Crossing>| #[trigger]
        call_ensures(place, (&found,), position) && lists_crossings(samples, res, c, found@)
}

/// Whether a normal is what `slope` may answer to values that the field may have at
/// the six points that `around` may answer to `p`.
pub open spec fn sloped_from_its_point<P, N, A: Fn(P) -> Around<P>, G: Fn(Around<Scalar>) -> N>(
    field: Field<P>,
    around: A,
    slope: G,
    p: P,
    normal: N,
) -> bool {
    exists|points: Around<P>, values: Around<Scalar>|
        {
            &&& #[trigger] call_ensures(around, (p,), points)
            &&& field(points.x.0, values.x.0) && field(points.x.1, values.x.1)
            &&& field(points.y.0, values.y.0) && field(points.y.1, values.y.1)
            &&& field(points.z.0, values.z.0) && field(points.z.1, values.z.1)
            &&& #[trigger] call_ensures(slope, (values,), normal)
        }
}

/// A surface is made of answers: there are samples, one for each grid corner, that the
/// field has at just that corner's point; vertex `v` belongs to the `v`-th cell that
/// the surface of these samples passes through, is placed from the crossings of that
/// very cell, and has its normal from the field around its own position; and the
/// triangles are those of the samples.
pub proof fn law_surface_is_made_of_answers<
    P,
    N,
    C: Fn(usize, usize, usize) -> P,
    V: Fn(&Vec<Crossing>) -> P,
    A: Fn(P) -> Around<P>,
    G: Fn(Around<Scalar>) -> N,
>(
    field: Field<P>,
    res: usize,
    embedding: Embedding<C, V, A, G>,
    positions: Seq<P>,
    normals: Seq<N>,
    indices: Seq<u32>,
) -> (samples: Seq<Scalar>)
    requires
        definite(embedding),
        is_surface(field, res, embedding, positions, normals, indices),
    ensures
        samples.len() == (res + 1) * (res + 1) * (res + 1),
        forall|i: usize, j: usize, k: usize, p: P|
            i <= res && j <= res && k <= res && #[trigger] call_ensures(
                embedding.corner,
                (i, j, k),
                p,
            ) ==> field(p, samples[(i * (res + 1) + j) * (res + 1) + k]),
        positions.len() == surface_cells(samples, res as int).len(),
        normals.len() == surface_cells(samples, res as int).len(),
        forall|v: int|
            0 <= v < positions.len() ==> placed_from_its_cell(
                samples,
                res as int,
                surface_cells(samples, res as int)[v],
                embedding.place,
                #[trigger] positions[v],
            ),
        forall|v: int|
            0 <= v < normals.len() ==> sloped_from_its_point(
                field,
                embedding.around,
                embedding.slope,
                positions[v],
                #[trigger] normals[v],
            ),
        indices == surface_indices(samples, res as int),
{
    let samples = choose|samples: Seq<Scalar>| #[trigger]
        sampled(field, embedding.corner, res, samples) && embedded(
            field,
            samples,
            res as int,
            embedding,
            positions,
            normals,
        ) && indices == surface_indices(samples, res as int);
    assert forall|i: usize, j: usize, k: usize, p: P|
        i <= res && j <= res && k <= res && #[trigger] call_ensures(
            embedding.corner,
            (i, j, k),
            p,
        ) implies field(p, samples[(i * (res + 1) + j) * (res + 1) + k]) by {
        let value = samples[flat(res + 1, i as int, j as int, k as int)];
        assert(is_sample(field, embedding.corner, i, j, k, value));
        let q = choose|q: P| #[trigger]
            call_ensures(embedding.corner, (i, j, k), q) && field(q, value);
        assert(p == q);
    }
    let cells = surface_cells(samples, res as int);
    lemma_cells_in_grid(samples, res as int);
    assert forall|v: int| 0 <= v < positions.len() implies placed_from_its_cell(
        samples,
        res as int,
        cells[v],
        embedding.place,
        #[trigger] positions[v],
    ) by {
        let c = cells[v];
        law_crossings_are_those_of_the_cell(samples, res as int, c);
        let crossings = crossings_on(samples, res as int, c.i as int, c.j as int, c.k as int, 12);
        assert(placed(embedding.place, crossings, positions[v]));
        let found = choose|found: Vec<Crossing>|
            found@ == crossings && #[trigger] call_ensures(
                embedding.place,
                (&found,),
                positions[v],
            );
        assert(call_ensures(embedding.place, (&found,), positions[v]) && lists_crossings(
            samples,
            res as int,
            c,
            found@,
        ));
    }
    assert forall|v: int| 0 <= v < normals.len() implies sloped_from_its_point(
        field,
        embedding.around,
        embedding.slope,
        positions[v],
        #[trigger] normals[v],
    ) by {
        assert(is_gradient(field, embedding.around, embedding.slope, positions[v], normals[v]));
        let (points, values) = choose|points: Around<P>, values: Around<Scalar>| #[trigger]
            call_ensures(embedding.around, (positions[v],), points) && #[trigger] probed(
                field,
                points,
                values,
            ) && call_ensures(embedding.slope, (values,), normals[v]);
        assert(call_ensures(embedding.around, (positions[v],), points) && call_ensures(
            embedding.slope,
            (values,),
            normals[v],
        ));
    }
    samples
}

/// Every grid corner is sampled at its own point: the sample in the corner's own place
/// is a value of the field at a point that `corner` answers to just that corner.
pub proof fn law_samples_are_taken_at_their_corners<P, C: Fn(usize, usize, usize) -> P>(
    field: Field<P>,
    corner: C,
    res: usize,
    samples: Seq<Scalar>,
    i: usize,
    j: usize,
    k: usize,
) -> (p: P)
    requires
        sampled(field, corner, res, samples),
        i <= res,
        j <= res,
        k <= res,
    ensures
        samples.len() == (res + 1) * (res + 1) * (res + 1),
        call_ensures(corner, (i, j, k), p),
        field(p, samples[(i * (res + 1) + j) * (res + 1) + k]),
{
    let value = samples[flat(res + 1, i as int, j as int, k as int)];
    assert(is_sample(field, corner, i, j, k, value));
    choose|p: P| #[trigger] call_ensures(corner, (i, j, k), p) && field(p, value)
}

} // verus!
