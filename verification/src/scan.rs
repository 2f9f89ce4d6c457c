//! Walks over a box of grid points, in the order of three nested loops.
//!
//! A walk visits `i` in the outer loop, `j` in the middle one and `k` in the
//! inner one, each from the low corner of the box up to but not including its
//! high corner, and gathers what each visit yields.

use vstd::prelude::*;

verus! {

/// A point of an integer grid.
pub type Point = (int, int, int);

/// What a visit to a grid point yields.
pub type Visit<T> = spec_fn(int, int, int) -> Seq<T>;

/// Whether a point lies in the box from `lo` up to but not including `hi`.
pub open spec fn in_box(lo: Point, hi: Point, i: int, j: int, k: int) -> bool {
    lo.0 <= i < hi.0 && lo.1 <= j < hi.1 && lo.2 <= k < hi.2
}

/// The inner loop: what row `(i, j)` yields for `k` in `from..to`.
pub open spec fn scan_row<T>(f: Visit<T>, i: int, j: int, from: int, to: int) -> Seq<T>
    decreases to - from,
{
    if to <= from {
        Seq::empty()
    } else {
        scan_row(f, i, j, from, to - 1) + f(i, j, to - 1)
    }
}

/// The middle loop: what plane `i` yields for `j` in `from..to`.
pub open spec fn scan_plane<T>(f: Visit<T>, i: int, from: int, to: int, k0: int, k1: int) -> Seq<T>
    decreases to - from,
{
    if to <= from {
        Seq::empty()
    } else {
        scan_plane(f, i, from, to - 1, k0, k1) + scan_row(f, i, to - 1, k0, k1)
    }
}

/// The outer loop: what the box yields for `i` in `lo.0..to`.
pub open spec fn scan_block<T>(f: Visit<T>, lo: Point, hi: Point, to: int) -> Seq<T>
    decreases to - lo.0,
{
    if to <= lo.0 {
        Seq::empty()
    } else {
        scan_block(f, lo, hi, to - 1) + scan_plane(f, to - 1, lo.1, hi.1, lo.2, hi.2)
    }
}

/// Everything that a walk over the box yields.
pub open spec fn scan<T>(f: Visit<T>, lo: Point, hi: Point) -> Seq<T> {
    scan_block(f, lo, hi, hi.0)
}

/// What a walk over the box has yielded when it comes to `(i, j, k)`.
pub open spec fn scan_before<T>(f: Visit<T>, lo: Point, hi: Point, i: int, j: int, k: int) -> Seq<T> {
    scan_block(f, lo, hi, i) + scan_plane(f, i, lo.1, j, lo.2, hi.2) + scan_row(f, i, j, lo.2, k)
}

/// One step of the walk.
pub proof fn lemma_scan_step<T>(f: Visit<T>, lo: Point, hi: Point, i: int, j: int, k: int)
    requires
        lo.2 <= k,
    ensures
        scan_before(f, lo, hi, i, j, k + 1) == scan_before(f, lo, hi, i, j, k) + f(i, j, k),
{
    assert(scan_before(f, lo, hi, i, j, k + 1) =~= scan_before(f, lo, hi, i, j, k) + f(i, j, k));
}

/// The end of a row is the start of the next one.
pub proof fn lemma_scan_row_end<T>(f: Visit<T>, lo: Point, hi: Point, i: int, j: int)
    requires
        lo.1 <= j,
    ensures
        scan_before(f, lo, hi, i, j, hi.2) == scan_before(f, lo, hi, i, j + 1, lo.2),
{
    assert(scan_before(f, lo, hi, i, j, hi.2) =~= scan_before(f, lo, hi, i, j + 1, lo.2));
}

/// The end of a plane is the start of the next one.
pub proof fn lemma_scan_plane_end<T>(f: Visit<T>, lo: Point, hi: Point, i: int)
    requires
        lo.0 <= i,
    ensures
        scan_before(f, lo, hi, i, hi.1, lo.2) == scan_before(f, lo, hi, i + 1, lo.1, lo.2),
{
    assert(scan_before(f, lo, hi, i, hi.1, lo.2) =~= scan_before(f, lo, hi, i + 1, lo.1, lo.2));
}

/// The start of the first plane is the start of the walk, and the start of the
/// plane behind the last is its end.
pub proof fn lemma_scan_ends<T>(f: Visit<T>, lo: Point, hi: Point)
    ensures
        scan_before(f, lo, hi, lo.0, lo.1, lo.2) == Seq::<T>::empty(),
        scan_before(f, lo, hi, hi.0, lo.1, lo.2) == scan(f, lo, hi),
{
    assert(scan_before(f, lo, hi, lo.0, lo.1, lo.2) =~= Seq::<T>::empty());
    assert(scan_before(f, lo, hi, hi.0, lo.1, lo.2) =~= scan(f, lo, hi));
}

/// A row that goes on keeps what it has.
proof fn lemma_row_prefix<T>(f: Visit<T>, i: int, j: int, from: int, mid: int, to: int)
    requires
        mid <= to,
    ensures
        scan_row(f, i, j, from, mid).is_prefix_of(scan_row(f, i, j, from, to)),
    decreases to - mid,
{
    if mid < to {
        lemma_row_prefix(f, i, j, from, mid, to - 1);
    }
}

proof fn lemma_plane_prefix<T>(f: Visit<T>, i: int, from: int, mid: int, to: int, k0: int, k1: int)
    requires
        mid <= to,
    ensures
        scan_plane(f, i, from, mid, k0, k1).is_prefix_of(scan_plane(f, i, from, to, k0, k1)),
    decreases to - mid,
{
    if mid < to {
        lemma_plane_prefix(f, i, from, mid, to - 1, k0, k1);
    }
}

proof fn lemma_block_prefix<T>(f: Visit<T>, lo: Point, hi: Point, mid: int, to: int)
    requires
        mid <= to,
    ensures
        scan_block(f, lo, hi, mid).is_prefix_of(scan_block(f, lo, hi, to)),
    decreases to - mid,
{
    if mid < to {
        lemma_block_prefix(f, lo, hi, mid, to - 1);
    }
}

/// What a visit yields stands in the walk right behind what came before it.
pub proof fn lemma_scan_holds_visit<T>(f: Visit<T>, lo: Point, hi: Point, i: int, j: int, k: int)
    requires
        in_box(lo, hi, i, j, k),
    ensures
        (scan_before(f, lo, hi, i, j, k) + f(i, j, k)).is_prefix_of(scan(f, lo, hi)),
{
    let before = scan_before(f, lo, hi, i, j, k);
    let block = scan_block(f, lo, hi, i);
    let plane = scan_plane(f, i, lo.1, j, lo.2, hi.2);
    lemma_row_prefix(f, i, j, lo.2, k + 1, hi.2);
    lemma_plane_prefix(f, i, lo.1, j + 1, hi.1, lo.2, hi.2);
    lemma_block_prefix(f, lo, hi, i + 1, hi.0);
    assert(before + f(i, j, k) =~= block + (plane + scan_row(f, i, j, lo.2, k + 1)));
    let row_done = plane + scan_row(f, i, j, lo.2, hi.2);
    assert((plane + scan_row(f, i, j, lo.2, k + 1)).is_prefix_of(row_done));
    assert(row_done == scan_plane(f, i, lo.1, j + 1, lo.2, hi.2));
    let plane_done = scan_plane(f, i, lo.1, hi.1, lo.2, hi.2);
    assert(row_done.is_prefix_of(plane_done));
    assert((block + row_done).is_prefix_of(block + plane_done));
    assert(block + plane_done == scan_block(f, lo, hi, i + 1));
}

/// Whether item `n` of a walk is among what the visit to `(i, j, k)` yields.
pub open spec fn yielded_at<T>(
    f: Visit<T>,
    lo: Point,
    hi: Point,
    n: int,
    i: int,
    j: int,
    k: int,
) -> bool {
    let start = scan_before(f, lo, hi, i, j, k).len();
    in_box(lo, hi, i, j, k) && start <= n < start + f(i, j, k).len()
}

/// Everything in a walk was yielded by some visit.
pub proof fn lemma_scan_source<T>(f: Visit<T>, lo: Point, hi: Point, n: int) -> (at: Point)
    requires
        0 <= n < scan(f, lo, hi).len(),
    ensures
        yielded_at(f, lo, hi, n, at.0, at.1, at.2),
        scan(f, lo, hi)[n] == f(at.0, at.1, at.2)[n - scan_before(
            f,
            lo,
            hi,
            at.0,
            at.1,
            at.2,
        ).len()],
{
    let i = lemma_block_source(f, lo, hi, hi.0, n);
    let in_plane = n - scan_block(f, lo, hi, i).len();
    let j = lemma_plane_source(f, i, lo.1, hi.1, lo.2, hi.2, in_plane);
    let in_row = in_plane - scan_plane(f, i, lo.1, j, lo.2, hi.2).len();
    let k = lemma_row_source(f, i, j, lo.2, hi.2, in_row);
    lemma_scan_holds_visit(f, lo, hi, i, j, k);
    let before = scan_before(f, lo, hi, i, j, k);
    assert(scan(f, lo, hi)[n] == (before + f(i, j, k))[n]);
    (i, j, k)
}

proof fn lemma_row_source<T>(f: Visit<T>, i: int, j: int, from: int, to: int, n: int) -> (k: int)
    requires
        0 <= n < scan_row(f, i, j, from, to).len(),
    ensures
        from <= k < to,
        scan_row(f, i, j, from, k).len() <= n < scan_row(f, i, j, from, k).len() + f(i, j, k).len(),
    decreases to - from,
{
    if n < scan_row(f, i, j, from, to - 1).len() {
        lemma_row_source(f, i, j, from, to - 1, n)
    } else {
        to - 1
    }
}

proof fn lemma_plane_source<T>(
    f: Visit<T>,
    i: int,
    from: int,
    to: int,
    k0: int,
    k1: int,
    n: int,
) -> (j: int)
    requires
        0 <= n < scan_plane(f, i, from, to, k0, k1).len(),
    ensures
        from <= j < to,
        scan_plane(f, i, from, j, k0, k1).len() <= n < scan_plane(f, i, from, j, k0, k1).len()
            + scan_row(f, i, j, k0, k1).len(),
    decreases to - from,
{
    if n < scan_plane(f, i, from, to - 1, k0, k1).len() {
        lemma_plane_source(f, i, from, to - 1, k0, k1, n)
    } else {
        to - 1
    }
}

proof fn lemma_block_source<T>(f: Visit<T>, lo: Point, hi: Point, to: int, n: int) -> (i: int)
    requires
        0 <= n < scan_block(f, lo, hi, to).len(),
    ensures
        lo.0 <= i < to,
        scan_block(f, lo, hi, i).len() <= n < scan_block(f, lo, hi, i).len() + scan_plane(
            f,
            i,
            lo.1,
            hi.1,
            lo.2,
            hi.2,
        ).len(),
    decreases to - lo.0,
{
    if n < scan_block(f, lo, hi, to - 1).len() {
        lemma_block_source(f, lo, hi, to - 1, n)
    } else {
        to - 1
    }
}

/// What a relation has to satisfy to carry over from single visits to whole walks:
/// it holds of nothing at all, and where it holds of two parts it holds of both
/// together.
pub open spec fn additive<T, U>(r: spec_fn(Seq<T>, Seq<U>) -> bool) -> bool {
    &&& r(Seq::empty(), Seq::empty())
    &&& forall|a: Seq<T>, b: Seq<U>, c: Seq<T>, d: Seq<U>| #[trigger] joins(r, a, b, c, d)
}

/// Whether a relation that holds of two parts holds of both together.
pub open spec fn joins<T, U>(
    r: spec_fn(Seq<T>, Seq<U>) -> bool,
    a: Seq<T>,
    b: Seq<U>,
    c: Seq<T>,
    d: Seq<U>,
) -> bool {
    r(a, b) && r(c, d) ==> r(a + c, b + d)
}

proof fn lemma_row_related<T, U>(
    f: Visit<T>,
    g: Visit<U>,
    i: int,
    j: int,
    from: int,
    to: int,
    r: spec_fn(Seq<T>, Seq<U>) -> bool,
)
    requires
        additive(r),
        forall|k: int| from <= k < to ==> r(#[trigger] f(i, j, k), g(i, j, k)),
    ensures
        r(scan_row(f, i, j, from, to), scan_row(g, i, j, from, to)),
    decreases to - from,
{
    if from < to {
        lemma_row_related(f, g, i, j, from, to - 1, r);
        assert(r(f(i, j, to - 1), g(i, j, to - 1)));
        assert(joins(
            r,
            scan_row(f, i, j, from, to - 1),
            scan_row(g, i, j, from, to - 1),
            f(i, j, to - 1),
            g(i, j, to - 1),
        ));
    }
}

proof fn lemma_plane_related<T, U>(
    f: Visit<T>,
    g: Visit<U>,
    i: int,
    from: int,
    to: int,
    k0: int,
    k1: int,
    r: spec_fn(Seq<T>, Seq<U>) -> bool,
)
    requires
        additive(r),
        forall|j: int, k: int|
            from <= j < to && k0 <= k < k1 ==> r(#[trigger] f(i, j, k), g(i, j, k)),
    ensures
        r(scan_plane(f, i, from, to, k0, k1), scan_plane(g, i, from, to, k0, k1)),
    decreases to - from,
{
    if from < to {
        lemma_plane_related(f, g, i, from, to - 1, k0, k1, r);
        lemma_row_related(f, g, i, to - 1, k0, k1, r);
        assert(joins(
            r,
            scan_plane(f, i, from, to - 1, k0, k1),
            scan_plane(g, i, from, to - 1, k0, k1),
            scan_row(f, i, to - 1, k0, k1),
            scan_row(g, i, to - 1, k0, k1),
        ));
    }
}

proof fn lemma_block_related<T, U>(
    f: Visit<T>,
    g: Visit<U>,
    lo: Point,
    hi: Point,
    to: int,
    r: spec_fn(Seq<T>, Seq<U>) -> bool,
)
    requires
        additive(r),
        forall|i: int, j: int, k: int|
            lo.0 <= i < to && lo.1 <= j < hi.1 && lo.2 <= k < hi.2 ==> r(
                #[trigger] f(i, j, k),
                g(i, j, k),
            ),
    ensures
        r(scan_block(f, lo, hi, to), scan_block(g, lo, hi, to)),
    decreases to - lo.0,
{
    if lo.0 < to {
        lemma_block_related(f, g, lo, hi, to - 1, r);
        lemma_plane_related(f, g, to - 1, lo.1, hi.1, lo.2, hi.2, r);
        assert(joins(
            r,
            scan_block(f, lo, hi, to - 1),
            scan_block(g, lo, hi, to - 1),
            scan_plane(f, to - 1, lo.1, hi.1, lo.2, hi.2),
            scan_plane(g, to - 1, lo.1, hi.1, lo.2, hi.2),
        ));
    }
}

/// Where a relation holds between what two walks yield at each visit, it holds
/// between what they have yielded at any point, and between the whole walks.
pub proof fn lemma_scan_related<T, U>(
    f: Visit<T>,
    g: Visit<U>,
    lo: Point,
    hi: Point,
    r: spec_fn(Seq<T>, Seq<U>) -> bool,
)
    requires
        additive(r),
        forall|i: int, j: int, k: int|
            in_box(lo, hi, i, j, k) ==> r(#[trigger] f(i, j, k), g(i, j, k)),
    ensures
        r(scan(f, lo, hi), scan(g, lo, hi)),
        forall|i: int, j: int, k: int|
            in_box(lo, hi, i, j, k) ==> r(
                #[trigger] scan_before(f, lo, hi, i, j, k),
                scan_before(g, lo, hi, i, j, k),
            ),
{
    lemma_block_related(f, g, lo, hi, hi.0, r);
    assert forall|i: int, j: int, k: int| in_box(lo, hi, i, j, k) implies r(
        #[trigger] scan_before(f, lo, hi, i, j, k),
        scan_before(g, lo, hi, i, j, k),
    ) by {
        lemma_block_related(f, g, lo, hi, i, r);
        lemma_plane_related(f, g, i, lo.1, j, lo.2, hi.2, r);
        lemma_row_related(f, g, i, j, lo.2, k, r);
        let block_f = scan_block(f, lo, hi, i);
        let block_g = scan_block(g, lo, hi, i);
        let plane_f = scan_plane(f, i, lo.1, j, lo.2, hi.2);
        let plane_g = scan_plane(g, i, lo.1, j, lo.2, hi.2);
        let row_f = scan_row(f, i, j, lo.2, k);
        let row_g = scan_row(g, i, j, lo.2, k);
        assert(joins(r, block_f, block_g, plane_f, plane_g));
        assert(joins(r, block_f + plane_f, block_g + plane_g, row_f, row_g));
    }
}

/// Walks that yield the same at each visit have yielded the same at any point, and
/// in the end.
pub proof fn lemma_scan_same<T>(f: Visit<T>, g: Visit<T>, lo: Point, hi: Point)
    requires
        forall|i: int, j: int, k: int|
            in_box(lo, hi, i, j, k) ==> #[trigger] f(i, j, k) == g(i, j, k),
    ensures
        scan(f, lo, hi) == scan(g, lo, hi),
        forall|i: int, j: int, k: int|
            in_box(lo, hi, i, j, k) ==> #[trigger] scan_before(f, lo, hi, i, j, k) == scan_before(
                g,
                lo,
                hi,
                i,
                j,
                k,
            ),
{
    let same = |a: Seq<T>, b: Seq<T>| a == b;
    lemma_scan_related(f, g, lo, hi, same);
}

/// What holds of everything that every visit yields holds of the whole walk.
pub proof fn lemma_scan_all<T>(f: Visit<T>, lo: Point, hi: Point, p: spec_fn(T) -> bool)
    requires
        forall|i: int, j: int, k: int, n: int|
            in_box(lo, hi, i, j, k) && 0 <= n < f(i, j, k).len() ==> p(#[trigger] f(i, j, k)[n]),
    ensures
        forall|n: int| 0 <= n < scan(f, lo, hi).len() ==> p(#[trigger] scan(f, lo, hi)[n]),
{
    let all = |a: Seq<T>, b: Seq<T>| forall|n: int| 0 <= n < a.len() ==> p(#[trigger] a[n]);
    assert forall|a: Seq<T>, b: Seq<T>, c: Seq<T>, d: Seq<T>| #[trigger] joins(all, a, b, c, d) by {
        if all(a, b) && all(c, d) {
            assert forall|n: int| 0 <= n < (a + c).len() implies p(#[trigger] (a + c)[n]) by {
                if n < a.len() {
                    assert((a + c)[n] == a[n]);
                } else {
                    assert((a + c)[n] == c[n - a.len()]);
                }
            }
        }
    }
    lemma_scan_related(f, f, lo, hi, all);
}

/// Where every visit of one walk yields `m` times as much as the same visit of
/// another, the whole walk does too.
pub proof fn lemma_scan_len<T, U>(f: Visit<T>, g: Visit<U>, lo: Point, hi: Point, m: int)
    requires
        forall|i: int, j: int, k: int|
            in_box(lo, hi, i, j, k) ==> (#[trigger] f(i, j, k)).len() == m * g(i, j, k).len(),
    ensures
        scan(f, lo, hi).len() == m * scan(g, lo, hi).len(),
{
    let longer = |a: Seq<T>, b: Seq<U>| a.len() == m * b.len();
    assert forall|a: Seq<T>, b: Seq<U>, c: Seq<T>, d: Seq<U>| #[trigger]
        joins(longer, a, b, c, d) by {
        let x = b.len();
        let y = d.len();
        assert(m * (x + y) == m * x + m * y) by (nonlinear_arith);
    }
    assert(longer(Seq::empty(), Seq::empty())) by {
        assert(m * 0 == 0);
    }
    lemma_scan_related(f, g, lo, hi, longer);
}

proof fn lemma_row_at_most<T>(f: Visit<T>, i: int, j: int, from: int, to: int)
    requires
        from <= to,
        forall|k: int| from <= k < to ==> (#[trigger] f(i, j, k)).len() <= 1,
    ensures
        scan_row(f, i, j, from, to).len() <= to - from,
    decreases to - from,
{
    if from < to {
        lemma_row_at_most(f, i, j, from, to - 1);
        assert(f(i, j, to - 1).len() <= 1);
    }
}

proof fn lemma_plane_at_most<T>(f: Visit<T>, i: int, from: int, to: int, k0: int, k1: int)
    requires
        from <= to,
        k0 <= k1,
        forall|j: int, k: int|
            from <= j < to && k0 <= k < k1 ==> (#[trigger] f(i, j, k)).len() <= 1,
    ensures
        scan_plane(f, i, from, to, k0, k1).len() <= (to - from) * (k1 - k0),
    decreases to - from,
{
    let w = k1 - k0;
    assert(0 * w == 0);
    if from < to {
        lemma_plane_at_most(f, i, from, to - 1, k0, k1);
        lemma_row_at_most(f, i, to - 1, k0, k1);
        let n = to - from;
        assert((n - 1) * w + w == n * w) by (nonlinear_arith);
    }
}

proof fn lemma_block_at_most<T>(f: Visit<T>, lo: Point, hi: Point, to: int)
    requires
        lo.0 <= to,
        lo.1 <= hi.1,
        lo.2 <= hi.2,
        forall|i: int, j: int, k: int|
            lo.0 <= i < to && lo.1 <= j < hi.1 && lo.2 <= k < hi.2 ==> (#[trigger] f(
                i,
                j,
                k,
            )).len() <= 1,
    ensures
        scan_block(f, lo, hi, to).len() <= (to - lo.0) * ((hi.1 - lo.1) * (hi.2 - lo.2)),
    decreases to - lo.0,
{
    let w = (hi.1 - lo.1) * (hi.2 - lo.2);
    assert(0 * w == 0);
    if lo.0 < to {
        lemma_block_at_most(f, lo, hi, to - 1);
        lemma_plane_at_most(f, to - 1, lo.1, hi.1, lo.2, hi.2);
        let n = to - lo.0;
        assert((n - 1) * w + w == n * w) by (nonlinear_arith);
    }
}

/// A walk whose visits yield one thing at most yields no more things than the box
/// has points.
pub proof fn lemma_scan_at_most<T>(f: Visit<T>, lo: Point, hi: Point)
    requires
        lo.0 <= hi.0,
        lo.1 <= hi.1,
        lo.2 <= hi.2,
        forall|i: int, j: int, k: int|
            in_box(lo, hi, i, j, k) ==> (#[trigger] f(i, j, k)).len() <= 1,
    ensures
        scan(f, lo, hi).len() <= (hi.0 - lo.0) * ((hi.1 - lo.1) * (hi.2 - lo.2)),
{
    lemma_block_at_most(f, lo, hi, hi.0);
}

/// Whether the walk comes to one point before it comes to another.
pub open spec fn comes_before(a: Point, b: Point) -> bool {
    a.0 < b.0 || (a.0 == b.0 && (a.1 < b.1 || (a.1 == b.1 && a.2 < b.2)))
}

/// What a visit yields is there when the walk comes to any later point.
pub proof fn lemma_scan_goes_on<T>(f: Visit<T>, lo: Point, hi: Point, a: Point, b: Point)
    requires
        in_box(lo, hi, a.0, a.1, a.2),
        in_box(lo, hi, b.0, b.1, b.2),
        comes_before(a, b),
    ensures
        scan_before(f, lo, hi, a.0, a.1, a.2).len() + f(a.0, a.1, a.2).len() <= scan_before(
            f,
            lo,
            hi,
            b.0,
            b.1,
            b.2,
        ).len(),
{
    let row = scan_row(f, a.0, a.1, lo.2, a.2 + 1);
    assert(row.len() == scan_row(f, a.0, a.1, lo.2, a.2).len() + f(a.0, a.1, a.2).len());
    if a.0 == b.0 && a.1 == b.1 {
        lemma_row_prefix(f, a.0, a.1, lo.2, a.2 + 1, b.2);
    } else {
        lemma_row_prefix(f, a.0, a.1, lo.2, a.2 + 1, hi.2);
        if a.0 == b.0 {
            lemma_plane_prefix(f, a.0, lo.1, a.1 + 1, b.1, lo.2, hi.2);
        } else {
            lemma_plane_prefix(f, a.0, lo.1, a.1 + 1, hi.1, lo.2, hi.2);
            lemma_block_prefix(f, lo, hi, a.0 + 1, b.0);
        }
    }
}

} // verus!
