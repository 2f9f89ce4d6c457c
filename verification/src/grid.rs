//! The sampling grid: corners, cells, and their places in flat storage.

use vstd::prelude::*;
use crate::scan::{in_box, Point};

verus! {

/// A corner or a cell of the grid. A cell goes by its lowest corner.
#[derive(Clone, Copy, Debug, PartialEq, Eq, Structural)]
pub struct GridPoint {
    pub i: usize,
    pub j: usize,
    pub k: usize,
}

/// The grid point with these coordinates.
pub open spec fn grid_point(i: int, j: int, k: int) -> GridPoint {
    GridPoint { i: i as usize, j: j as usize, k: k as usize }
}

/// Where `(i, j, k)` stands among the points of a cube with `side` points to a
/// side, the last coordinate running fastest.
pub open spec fn flat(side: int, i: int, j: int, k: int) -> int {
    (i * side + j) * side + k
}

/// How many points a cube with `side` points to a side has.
pub open spec fn volume(side: int) -> int {
    side * side * side
}

/// The low corner of every cube.
pub open spec fn origin() -> Point {
    (0, 0, 0)
}

/// The high corner of a cube with `side` points to a side.
pub open spec fn far(side: int) -> Point {
    (side, side, side)
}

/// Flat places lie within the volume.
pub proof fn lemma_flat_bounds(side: int, i: int, j: int, k: int)
    requires
        in_box(origin(), far(side), i, j, k),
    ensures
        0 <= i * side <= i * side + j < side * side,
        0 <= (i * side + j) * side <= flat(side, i, j, k) < volume(side),
        side <= side * side <= volume(side),
{
    assert(side <= side * side) by (nonlinear_arith)
        requires
            0 < side,
    ;
    assert(i * side + side <= side * side) by (nonlinear_arith)
        requires
            0 <= i < side,
    ;
    assert(0 <= i * side) by (nonlinear_arith)
        requires
            0 <= i < side,
    ;
    let row = i * side + j;
    assert(row * side + side <= (side * side) * side) by (nonlinear_arith)
        requires
            0 <= row < side * side,
            0 < side,
    ;
    assert(0 <= row * side) by (nonlinear_arith)
        requires
            0 <= row,
            0 < side,
    ;
    assert(side * side <= (side * side) * side) by (nonlinear_arith)
        requires
            0 < side,
    ;
}

/// Different points have different flat places.
pub proof fn law_flat_is_injective(side: int, a: Point, b: Point)
    requires
        in_box(origin(), far(side), a.0, a.1, a.2),
        in_box(origin(), far(side), b.0, b.1, b.2),
        flat(side, a.0, a.1, a.2) == flat(side, b.0, b.1, b.2),
    ensures
        a == b,
{
    lemma_digits(side, a.0 * side + a.1, a.2, b.0 * side + b.1, b.2);
    lemma_digits(side, a.0, a.1, b.0, b.1);
}

/// Every flat place within the volume is that of a point.
pub proof fn law_flat_is_onto(side: int, n: int) -> (p: Point)
    requires
        0 <= n < volume(side),
        0 < side,
    ensures
        in_box(origin(), far(side), p.0, p.1, p.2),
        flat(side, p.0, p.1, p.2) == n,
{
    let row = n / side;
    let k = n % side;
    let i = row / side;
    let j = row % side;
    vstd::arithmetic::div_mod::lemma_fundamental_div_mod(n, side);
    vstd::arithmetic::div_mod::lemma_fundamental_div_mod(row, side);
    vstd::arithmetic::div_mod::lemma_mod_bound(n, side);
    vstd::arithmetic::div_mod::lemma_mod_bound(row, side);
    assert(0 <= row < side * side) by (nonlinear_arith)
        requires
            n == side * row + k,
            0 <= k < side,
            0 <= n < side * side * side,
    ;
    assert(0 <= i < side) by (nonlinear_arith)
        requires
            row == side * i + j,
            0 <= j < side,
            0 <= row < side * side,
    ;
    assert(side * i == i * side && side * row == row * side) by (nonlinear_arith);
    (i, j, k)
}

proof fn lemma_digits(side: int, a: int, x: int, b: int, y: int)
    requires
        0 <= x < side,
        0 <= y < side,
        a * side + x == b * side + y,
    ensures
        a == b,
        x == y,
{
    assert(a == b) by (nonlinear_arith)
        requires
            0 <= x < side,
            0 <= y < side,
            a * side + x == b * side + y,
    ;
}

/// The flat place behind the last point of a row is that of the next row, and
/// the one behind the last row of a plane is that of the next plane.
pub proof fn lemma_flat_carries(side: int, i: int, j: int)
    ensures
        flat(side, i, j, side) == flat(side, i, j + 1, 0),
        flat(side, i, side, 0) == flat(side, i + 1, 0, 0),
        flat(side, 0, 0, 0) == 0,
        flat(side, side, 0, 0) == volume(side),
{
    assert((i * side + j) * side + side == (i * side + (j + 1)) * side) by (nonlinear_arith);
    assert(i * side + side == (i + 1) * side) by (nonlinear_arith);
}

/// The flat place of a grid point.
pub fn flat_place(side: usize, i: usize, j: usize, k: usize) -> (r: usize)
    requires
        in_box(origin(), far(side as int), i as int, j as int, k as int),
        volume(side as int) <= usize::MAX,
    ensures
        r == flat(side as int, i as int, j as int, k as int),
        r < volume(side as int),
{
    proof {
        lemma_flat_bounds(side as int, i as int, j as int, k as int);
    }
    (i * side + j) * side + k
}

/// Flat places count the points with the last coordinate running fastest: they start
/// at zero, and a step along each coordinate is one point, one row, or one plane.
pub proof fn law_flat_counts_points(side: int, i: int, j: int, k: int)
    ensures
        flat(side, 0, 0, 0) == 0,
        flat(side, i, j, k + 1) == flat(side, i, j, k) + 1,
        flat(side, i, j + 1, k) == flat(side, i, j, k) + side,
        flat(side, i + 1, j, k) == flat(side, i, j, k) + side * side,
        volume(side) == flat(side, side - 1, side - 1, side - 1) + 1,
{
    assert((i * side + (j + 1)) * side == (i * side + j) * side + side) by (nonlinear_arith);
    assert(((i + 1) * side + j) * side == (i * side + j) * side + side * side) by (nonlinear_arith);
    assert(((side - 1) * side + (side - 1)) * side + (side - 1) + 1 == side * side * side)
        by (nonlinear_arith);
}

/// A cube holds the points whose coordinates are all at least zero and below its
/// side, and a grid point has the coordinates it is given.
pub proof fn law_cubes_hold_their_points(side: int, i: int, j: int, k: int)
    ensures
        in_box(origin(), far(side), i, j, k) <==> 0 <= i < side && 0 <= j < side && 0 <= k < side,
        0 <= i <= usize::MAX && 0 <= j <= usize::MAX && 0 <= k <= usize::MAX ==> {
            let p = grid_point(i, j, k);
            p.i == i && p.j == j && p.k == k
        },
{
}

} // verus!
