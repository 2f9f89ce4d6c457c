//! Sums over a box of grid points.

use vstd::prelude::*;
use crate::scan::{in_box, Point};

verus! {

/// A number for each grid point.
pub type Weight = spec_fn(int, int, int) -> int;

pub open spec fn sum_row(g: Weight, i: int, j: int, from: int, to: int) -> int
    decreases to - from,
{
    if to <= from {
        0
    } else {
        sum_row(g, i, j, from, to - 1) + g(i, j, to - 1)
    }
}

pub open spec fn sum_plane(g: Weight, i: int, from: int, to: int, k0: int, k1: int) -> int
    decreases to - from,
{
    if to <= from {
        0
    } else {
        sum_plane(g, i, from, to - 1, k0, k1) + sum_row(g, i, to - 1, k0, k1)
    }
}

pub open spec fn sum_block(g: Weight, lo: Point, hi: Point, to: int) -> int
    decreases to - lo.0,
{
    if to <= lo.0 {
        0
    } else {
        sum_block(g, lo, hi, to - 1) + sum_plane(g, to - 1, lo.1, hi.1, lo.2, hi.2)
    }
}

/// The sum of `g` over the box from `lo` up to but not including `hi`.
pub open spec fn sum(g: Weight, lo: Point, hi: Point) -> int {
    sum_block(g, lo, hi, hi.0)
}

/// `g` at a point if the condition holds, and zero if not.
pub open spec fn part(g: Weight, p: Point, on: bool) -> int {
    if on {
        g(p.0, p.1, p.2)
    } else {
        0
    }
}

proof fn lemma_row_two(g: Weight, i: int, j: int, from: int, to: int, p: Point, q: Point)
    requires
        p != q,
        forall|k: int|
            from <= k < to && (i, j, k) != p && (i, j, k) != q ==> #[trigger] g(i, j, k) == 0,
    ensures
        sum_row(g, i, j, from, to) == part(g, p, p.0 == i && p.1 == j && from <= p.2 < to) + part(
            g,
            q,
            q.0 == i && q.1 == j && from <= q.2 < to,
        ),
    decreases to - from,
{
    if from < to {
        lemma_row_two(g, i, j, from, to - 1, p, q);
        if (i, j, to - 1) != p && (i, j, to - 1) != q {
            assert(g(i, j, to - 1) == 0);
        }
    }
}

proof fn lemma_plane_two(
    g: Weight,
    i: int,
    from: int,
    to: int,
    k0: int,
    k1: int,
    p: Point,
    q: Point,
)
    requires
        p != q,
        forall|j: int, k: int|
            from <= j < to && k0 <= k < k1 && (i, j, k) != p && (i, j, k) != q ==> #[trigger] g(
                i,
                j,
                k,
            ) == 0,
    ensures
        sum_plane(g, i, from, to, k0, k1) == part(
            g,
            p,
            p.0 == i && from <= p.1 < to && k0 <= p.2 < k1,
        ) + part(g, q, q.0 == i && from <= q.1 < to && k0 <= q.2 < k1),
    decreases to - from,
{
    if from < to {
        lemma_plane_two(g, i, from, to - 1, k0, k1, p, q);
        lemma_row_two(g, i, to - 1, k0, k1, p, q);
    }
}

proof fn lemma_block_two(g: Weight, lo: Point, hi: Point, to: int, p: Point, q: Point)
    requires
        p != q,
        forall|i: int, j: int, k: int|
            lo.0 <= i < to && lo.1 <= j < hi.1 && lo.2 <= k < hi.2 && (i, j, k) != p && (i, j, k)
                != q ==> #[trigger] g(i, j, k) == 0,
    ensures
        sum_block(g, lo, hi, to) == part(
            g,
            p,
            lo.0 <= p.0 < to && lo.1 <= p.1 < hi.1 && lo.2 <= p.2 < hi.2,
        ) + part(g, q, lo.0 <= q.0 < to && lo.1 <= q.1 < hi.1 && lo.2 <= q.2 < hi.2),
    decreases to - lo.0,
{
    if lo.0 < to {
        lemma_block_two(g, lo, hi, to - 1, p, q);
        lemma_plane_two(g, to - 1, lo.1, hi.1, lo.2, hi.2, p, q);
    }
}

/// Where all weights but two are zero, the sum is those two, as far as they lie
/// in the box.
pub proof fn lemma_sum_two(g: Weight, lo: Point, hi: Point, p: Point, q: Point)
    requires
        p != q,
        forall|i: int, j: int, k: int|
            in_box(lo, hi, i, j, k) && (i, j, k) != p && (i, j, k) != q ==> #[trigger] g(i, j, k)
                == 0,
    ensures
        sum(g, lo, hi) == part(g, p, in_box(lo, hi, p.0, p.1, p.2)) + part(
            g,
            q,
            in_box(lo, hi, q.0, q.1, q.2),
        ),
{
    lemma_block_two(g, lo, hi, hi.0, p, q);
}

} // verus!
