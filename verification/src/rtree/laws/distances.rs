//! How far a point is from ranges and boxes.

use crate::num::{counts_exactly, fits, IndexableNum};
use crate::rtree::distance::{
    axis_dist, spec_axis_dist, squared_distance_ok, squared_distance_to, SimpleDistanceMetric,
    SimpleSquaredDistance,
};
use vstd::prelude::*;

verus! {

/// How far two numbers are from each other.
pub open spec fn apart(a: int, b: int) -> int {
    if a <= b {
        b - a
    } else {
        a - b
    }
}

/// The distance from a value to a range leads to its nearer end: from below up to the lower end, from
/// the upper end up to a value above. Within the range it is zero. It is the least by which the value
/// is apart from a number in the range. It can be asked for where that fits.
pub proof fn lemma_axis_dist_is_least<N: IndexableNum>(k: N, min: N, max: N, dist: N)
    requires
        counts_exactly::<N>(),
        k.rank() < min.rank() ==> fits::<N>(min.rank() - k.rank()),
        min.rank() <= k.rank() && max.rank() < k.rank() ==> fits::<N>(k.rank() - max.rank()),
        call_ensures(axis_dist::<N>, (k, min, max), dist),
    ensures
        call_requires(axis_dist::<N>, (k, min, max)),
        k.rank() < min.rank() ==> k.rank() + dist.rank() == min.rank(),
        min.rank() <= k.rank() && max.rank() < k.rank() ==> max.rank() + dist.rank() == k.rank(),
        min.rank() <= k.rank() <= max.rank() ==> dist.rank() == 0,
        dist.rank() >= 0,
        forall|v: int|
            min.rank() <= v <= max.rank() ==> dist.rank() <= #[trigger] apart(k.rank(), v),
        min.rank() <= max.rank() ==> exists|v: int|
            min.rank() <= v <= max.rank() && #[trigger] apart(k.rank(), v) == dist.rank(),
{
    assert(min.minus_ok(k) == fits::<N>(min.rank() - k.rank()));
    assert(k.minus_ok(max) == fits::<N>(k.rank() - max.rank()));
    if min.rank() <= max.rank() {
        let v = if k.rank() < min.rank() {
            min.rank()
        } else if k.rank() <= max.rank() {
            k.rank()
        } else {
            max.rank()
        };
        assert(apart(k.rank(), v) == dist.rank());
    }
}

/// How far the number `k` is from those from `lo` to `hi`.
pub open spec fn gap(k: int, lo: int, hi: int) -> int {
    if k < lo {
        lo - k
    } else if hi < k {
        k - hi
    } else {
        0
    }
}

/// The square of how far the point `(x, y)` is from a box.
pub open spec fn squared_gap<N: IndexableNum>(
    x: N,
    y: N,
    min_x: N,
    min_y: N,
    max_x: N,
    max_y: N,
) -> int {
    let dx = gap(x.rank(), min_x.rank(), max_x.rank());
    let dy = gap(y.rank(), min_y.rank(), max_y.rank());
    dx * dx + dy * dy
}

/// The square of the distance between two points.
pub open spec fn squared_apart(x1: int, y1: int, x2: int, y2: int) -> int {
    (x2 - x1) * (x2 - x1) + (y2 - y1) * (y2 - y1)
}

/// No point of a box is nearer than the gap to the box, and one is as near.
pub proof fn lemma_gap_is_least<N: IndexableNum>(
    x: N,
    y: N,
    min_x: N,
    min_y: N,
    max_x: N,
    max_y: N,
)
    requires
        min_x.rank() <= max_x.rank(),
        min_y.rank() <= max_y.rank(),
    ensures
        forall|u: int, v: int|
            min_x.rank() <= u <= max_x.rank() && min_y.rank() <= v <= max_y.rank() ==> squared_gap(
                x,
                y,
                min_x,
                min_y,
                max_x,
                max_y,
            ) <= #[trigger] squared_apart(x.rank(), y.rank(), u, v),
        exists|u: int, v: int|
            min_x.rank() <= u <= max_x.rank() && min_y.rank() <= v <= max_y.rank() && squared_gap(
                x,
                y,
                min_x,
                min_y,
                max_x,
                max_y,
            ) == #[trigger] squared_apart(x.rank(), y.rank(), u, v),
{
    let dx = gap(x.rank(), min_x.rank(), max_x.rank());
    let dy = gap(y.rank(), min_y.rank(), max_y.rank());
    assert forall|u: int, v: int|
        min_x.rank() <= u <= max_x.rank() && min_y.rank() <= v <= max_y.rank() implies squared_gap(
        x,
        y,
        min_x,
        min_y,
        max_x,
        max_y,
    ) <= #[trigger] squared_apart(x.rank(), y.rank(), u, v) by {
        lemma_squares_grow(dx, u - x.rank());
        lemma_squares_grow(dy, v - y.rank());
    }
    let u = if x.rank() < min_x.rank() {
        min_x.rank()
    } else if max_x.rank() < x.rank() {
        max_x.rank()
    } else {
        x.rank()
    };
    let v = if y.rank() < min_y.rank() {
        min_y.rank()
    } else if max_y.rank() < y.rank() {
        max_y.rank()
    } else {
        y.rank()
    };
    lemma_squares_grow(dx, u - x.rank());
    lemma_squares_grow(u - x.rank(), dx);
    lemma_squares_grow(dy, v - y.rank());
    lemma_squares_grow(v - y.rank(), dy);
    assert(squared_gap(x, y, min_x, min_y, max_x, max_y) == squared_apart(
        x.rank(),
        y.rank(),
        u,
        v,
    ));
}

/// Squares grow with the size of a number.
pub(crate) proof fn lemma_squares_grow(a: int, b: int)
    requires
        apart(0, a) <= apart(0, b),
    ensures
        0 <= a * a <= b * b,
{
    let m = apart(0, a);
    let n = apart(0, b);
    assert(a * a == m * m && b * b == n * n) by (nonlinear_arith)
        requires
            m == a || m == -a,
            n == b || n == -b,
    ;
    assert(0 <= m * m <= n * n) by (nonlinear_arith)
        requires
            0 <= m <= n,
    ;
}

/// Where a sum of two squares fits, its parts do.
pub(crate) proof fn lemma_parts_fit<N: IndexableNum>(dx: int, dy: int)
    requires
        counts_exactly::<N>(),
        dx >= 0,
        dy >= 0,
        fits::<N>(dx * dx + dy * dy),
    ensures
        fits::<N>(dx),
        fits::<N>(dy),
        fits::<N>(dx * dx),
        fits::<N>(dy * dy),
{
    let sum = choose|value: N| #[trigger] value.rank() == dx * dx + dy * dy;
    assert(dx <= dx * dx && 0 <= dx * dx) by (nonlinear_arith)
        requires
            dx >= 0,
    ;
    assert(dy <= dy * dy && 0 <= dy * dy) by (nonlinear_arith)
        requires
            dy >= 0,
    ;
    assert(0 <= dx <= sum.rank() && 0 <= dy <= sum.rank());
    assert(0 <= dx * dx <= sum.rank() && 0 <= dy * dy <= sum.rank());
}

/// The squared distance to a box is that to its nearest point: no point of the box is nearer, and one
/// is as near. It can be asked for where that fits.
pub proof fn lemma_squared_distance_is_least<N: IndexableNum>(
    x: N,
    y: N,
    min_x: N,
    min_y: N,
    max_x: N,
    max_y: N,
    dist: N,
)
    requires
        counts_exactly::<N>(),
        fits::<N>(squared_gap(x, y, min_x, min_y, max_x, max_y)),
        call_ensures(
            <SimpleSquaredDistance as SimpleDistanceMetric<N>>::distance_to_bbox,
            (&SimpleSquaredDistance, x, y, min_x, min_y, max_x, max_y),
            dist,
        ),
    ensures
        call_requires(
            <SimpleSquaredDistance as SimpleDistanceMetric<N>>::distance_to_bbox,
            (&SimpleSquaredDistance, x, y, min_x, min_y, max_x, max_y),
        ),
        dist.rank() == squared_gap(x, y, min_x, min_y, max_x, max_y),
        forall|u: int, v: int|
            min_x.rank() <= u <= max_x.rank() && min_y.rank() <= v <= max_y.rank() ==> dist.rank()
                <= #[trigger] squared_apart(x.rank(), y.rank(), u, v),
        min_x.rank() <= max_x.rank() && min_y.rank() <= max_y.rank() ==> exists|u: int, v: int|
            min_x.rank() <= u <= max_x.rank() && min_y.rank() <= v <= max_y.rank() && dist.rank()
                == #[trigger] squared_apart(x.rank(), y.rank(), u, v),
{
    if min_x.rank() <= max_x.rank() && min_y.rank() <= max_y.rank() {
        lemma_gap_is_least(x, y, min_x, min_y, max_x, max_y);
    }
    lemma_squared_distance_is_gap(x, y, min_x, min_y, max_x, max_y);
}

/// The squared distance to a box can be computed where it fits, and is the square of the gap.
pub(crate) proof fn lemma_squared_distance_is_gap<N: IndexableNum>(
    x: N,
    y: N,
    min_x: N,
    min_y: N,
    max_x: N,
    max_y: N,
)
    requires
        counts_exactly::<N>(),
        fits::<N>(squared_gap(x, y, min_x, min_y, max_x, max_y)),
    ensures
        squared_distance_ok(x, y, [min_x, min_y, max_x, max_y]),
        squared_distance_to(x, y, [min_x, min_y, max_x, max_y]).rank() == squared_gap(
            x,
            y,
            min_x,
            min_y,
            max_x,
            max_y,
        ),
{
    let dx = gap(x.rank(), min_x.rank(), max_x.rank());
    let dy = gap(y.rank(), min_y.rank(), max_y.rank());
    lemma_parts_fit::<N>(dx, dy);
    assert(min_x.minus_ok(x) == fits::<N>(min_x.rank() - x.rank()));
    assert(x.minus_ok(max_x) == fits::<N>(x.rank() - max_x.rank()));
    assert(min_y.minus_ok(y) == fits::<N>(min_y.rank() - y.rank()));
    assert(y.minus_ok(max_y) == fits::<N>(y.rank() - max_y.rank()));
    let u = spec_axis_dist(x, min_x, max_x);
    let v = spec_axis_dist(y, min_y, max_y);
    assert(u.rank() == dx && v.rank() == dy);
    assert(u.times_ok(u) == fits::<N>(u.rank() * u.rank()));
    assert(v.times_ok(v) == fits::<N>(v.rank() * v.rank()));
    let uu = u.spec_times(u);
    let vv = v.spec_times(v);
    assert(uu.plus_ok(vv) == fits::<N>(uu.rank() + vv.rank()));
}

/// The squared distance of two points is the sum of the squares of their differences, and the same
/// from either end. It can be asked for where the differences, their squares and the sum fit.
pub proof fn lemma_squared_distance_of_points<N: IndexableNum>(
    x1: N,
    y1: N,
    x2: N,
    y2: N,
    dist: N,
)
    requires
        counts_exactly::<N>(),
        fits::<N>(x2.rank() - x1.rank()),
        fits::<N>(y2.rank() - y1.rank()),
        fits::<N>(squared_apart(x1.rank(), y1.rank(), x2.rank(), y2.rank())),
        call_ensures(
            <SimpleSquaredDistance as SimpleDistanceMetric<N>>::distance,
            (&SimpleSquaredDistance, x1, y1, x2, y2),
            dist,
        ),
    ensures
        call_requires(
            <SimpleSquaredDistance as SimpleDistanceMetric<N>>::distance,
            (&SimpleSquaredDistance, x1, y1, x2, y2),
        ),
        dist.rank() == squared_apart(x1.rank(), y1.rank(), x2.rank(), y2.rank()),
        dist.rank() == squared_apart(x2.rank(), y2.rank(), x1.rank(), y1.rank()),
{
    let dx = x2.rank() - x1.rank();
    let dy = y2.rank() - y1.rank();
    let a = apart(0, dx);
    let b = apart(0, dy);
    assert(a * a == dx * dx && b * b == dy * dy) by (nonlinear_arith)
        requires
            a == dx || a == -dx,
            b == dy || b == -dy,
    ;
    lemma_parts_fit::<N>(a, b);
    assert(x2.minus_ok(x1) == fits::<N>(dx));
    assert(y2.minus_ok(y1) == fits::<N>(dy));
    assert((-dx) * (-dx) == dx * dx && (-dy) * (-dy) == dy * dy) by (nonlinear_arith);
    let u = x2.spec_minus(x1);
    let v = y2.spec_minus(y1);
    assert(u.times_ok(u) == fits::<N>(u.rank() * u.rank()));
    assert(v.times_ok(v) == fits::<N>(v.rank() * v.rank()));
}

/// On any numbers, the distance from a value to a range is what is left of its nearer end, or of the
/// value, when the other is taken away.
pub proof fn lemma_axis_dist_is_a_difference<N: IndexableNum>(k: N, min: N, max: N, dist: N)
    requires
        call_ensures(axis_dist::<N>, (k, min, max), dist),
    ensures
        k.rank() < min.rank() ==> dist == min.spec_minus(k),
        min.rank() <= k.rank() && max.rank() < k.rank() ==> dist == k.spec_minus(max),
        min.rank() <= k.rank() <= max.rank() ==> dist == N::spec_zero(),
{
}

/// On any numbers, the squared distance to a box is the sum of the squares of the distances on both
/// axes.
pub proof fn lemma_squared_distance_adds_axes<N: IndexableNum>(
    x: N,
    y: N,
    min_x: N,
    min_y: N,
    max_x: N,
    max_y: N,
    dx: N,
    dy: N,
    dist: N,
)
    requires
        call_ensures(axis_dist::<N>, (x, min_x, max_x), dx),
        call_ensures(axis_dist::<N>, (y, min_y, max_y), dy),
        call_ensures(
            <SimpleSquaredDistance as SimpleDistanceMetric<N>>::distance_to_bbox,
            (&SimpleSquaredDistance, x, y, min_x, min_y, max_x, max_y),
            dist,
        ),
    ensures
        dist == dx.spec_times(dx).spec_plus(dy.spec_times(dy)),
{
}

/// On any numbers, the squared distance to a point is that to a box which is no more than the point,
/// where differences have the same squares either way.
pub proof fn lemma_points_are_boxes<N: IndexableNum>(x: N, y: N, px: N, py: N, dist: N, to_box: N)
    requires
        call_ensures(
            <SimpleSquaredDistance as SimpleDistanceMetric<N>>::distance,
            (&SimpleSquaredDistance, x, y, px, py),
            dist,
        ),
        call_ensures(
            <SimpleSquaredDistance as SimpleDistanceMetric<N>>::distance_to_bbox,
            (&SimpleSquaredDistance, x, y, px, py, px, py),
            to_box,
        ),
        forall|a: N, b: N| #[trigger]
            a.spec_minus(b).spec_times(a.spec_minus(b)) == b.spec_minus(a).spec_times(
                b.spec_minus(a),
            ),
        forall|a: N, b: N| a.rank() == b.rank() ==> #[trigger] a.spec_minus(b) == N::spec_zero(),
    ensures
        dist == to_box,
{
    if px.rank() < x.rank() {
        assert(px.spec_minus(x).spec_times(px.spec_minus(x)) == x.spec_minus(px).spec_times(
            x.spec_minus(px),
        ));
    }
    if py.rank() < y.rank() {
        assert(py.spec_minus(y).spec_times(py.spec_minus(y)) == y.spec_minus(py).spec_times(
            y.spec_minus(py),
        ));
    }
}

} // verus!
