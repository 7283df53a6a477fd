//! Points on a line: a space in which every promise that the searches ask
//! of a metric is kept.

use vstd::prelude::*;
use crate::dataset::VecDataset;
use crate::metric::{gap, manhattan_sum, Manhattan, Metric};

verus! {

/// Every instance of the dataset has one coordinate.
pub open spec fn is_line(data: &VecDataset<Vec<i32>, Manhattan>) -> bool {
    forall|i: int| 0 <= i < data.len() ==> (#[trigger] data.instance(i))@.len() == 1
}

/// Between points on a line the Manhattan distance is the absolute
/// difference of their coordinates.
pub proof fn lemma_line_distance(metric: &Manhattan, x: &Vec<i32>, y: &Vec<i32>)
    requires
        x@.len() == 1,
        y@.len() == 1,
    ensures
        metric.distance(x, y) == gap(x@[0], y@[0]),
{
    assert(manhattan_sum(x@, y@, 1) == manhattan_sum(x@, y@, 0) + gap(x@[0], y@[0]));
}

/// The bisector of two points on a line separates as the searches need it
/// to: a point `x` that is no farther from `f` than from `n` is at least as
/// far from `q` as the midpoint of `f` and `n` is, on the side of `f`.
pub proof fn lemma_line_bisects(f: int, n: int, x: int, q: int)
    requires
        abs(f - x) <= abs(n - x),
    ensures
        (abs(q - f) + abs(q - n)) * (abs(q - f) - abs(q - n)) <= 2 * abs(f - n) * abs(q - x),
{
    assert((abs(q - f) + abs(q - n)) * (abs(q - f) - abs(q - n)) == (n - f) * (2 * q - f - n))
        by (nonlinear_arith);
    if f < n {
        assert(2 * x <= f + n);
        assert(2 * q - f - n <= 2 * abs(q - x));
        assert((n - f) * (2 * q - f - n) <= (n - f) * (2 * abs(q - x))) by (nonlinear_arith)
            requires
                n - f >= 0,
                2 * q - f - n <= 2 * abs(q - x),
        ;
        assert((n - f) * (2 * abs(q - x)) == 2 * abs(f - n) * abs(q - x)) by (nonlinear_arith)
            requires
                abs(f - n) == n - f,
        ;
    } else if f > n {
        assert(2 * x >= f + n);
        assert(f + n - 2 * q <= 2 * abs(q - x));
        assert((n - f) * (2 * q - f - n) == (f - n) * (f + n - 2 * q)) by (nonlinear_arith);
        assert((f - n) * (f + n - 2 * q) <= (f - n) * (2 * abs(q - x))) by (nonlinear_arith)
            requires
                f - n >= 0,
                f + n - 2 * q <= 2 * abs(q - x),
        ;
        assert((f - n) * (2 * abs(q - x)) == 2 * abs(f - n) * abs(q - x)) by (nonlinear_arith)
            requires
                abs(f - n) == f - n,
        ;
    } else {
        assert((n - f) * (2 * q - f - n) == 0) by (nonlinear_arith)
            requires
                n == f,
        ;
        assert(2 * abs(f - n) * abs(q - x) == 0) by (nonlinear_arith)
            requires
                abs(f - n) == 0,
        ;
    }
}

/// The absolute value of a difference.
pub open spec fn abs(d: int) -> int {
    if d >= 0 {
        d
    } else {
        -d
    }
}

/// On a line, under the Manhattan distance, the query and the instances are
/// points of one metric space, and the space is flat: no descent loses a hit
/// to the poles there, and the clustered search is exact.
pub proof fn lemma_line_is_flat(data: &VecDataset<Vec<i32>, Manhattan>, query: &Vec<i32>)
    requires
        data.wf(),
        is_line(data),
        query@.len() == 1,
    ensures
        data.is_symmetric(),
        data.is_reflexive(),
        data.obeys_triangle(),
        data.is_metric_for(query),
        data.is_true_distance_for(query),
        data.is_flat_for(query),
{
    let q = query@[0] as int;
    assert forall|i: int| 0 <= i < data.len() implies #[trigger] data.qdist(query, i) == abs(
        q - data.instance(i)@[0],
    ) by {
        lemma_line_distance(&data.metric, query, &data.instance(i));
    }
    assert forall|i: int, j: int| 0 <= i < data.len() && 0 <= j < data.len() implies #[trigger] data.dist(
        i,
        j,
    ) == abs(data.instance(i)@[0] - data.instance(j)@[0]) by {
        lemma_line_distance(&data.metric, &data.instance(i), &data.instance(j));
    }
    assert(data.is_symmetric());
    assert(data.is_reflexive());
    assert forall|i: int, j: int, k: int|
        0 <= i < data.len() && 0 <= j < data.len() && 0 <= k < data.len() implies data.dist(i, k)
        <= #[trigger] data.dist(i, j) + #[trigger] data.dist(j, k) by {
        assert(data.dist(i, k) == abs(data.instance(i)@[0] - data.instance(k)@[0]));
    }
    assert forall|i: int, j: int| 0 <= i < data.len() && 0 <= j < data.len() implies data.qdist(
        query,
        j,
    ) <= data.qdist(query, i) + #[trigger] data.dist(i, j) by {}
    assert forall|i: int, j: int| 0 <= i < data.len() && 0 <= j < data.len() implies #[trigger] data.dist(
        i,
        j,
    ) <= data.qdist(query, i) + data.qdist(query, j) by {}
    assert forall|f: int, n: int, x: int|
        0 <= f < data.len() && 0 <= n < data.len() && 0 <= x < data.len() && #[trigger] data.dist(
            f,
            x,
        ) <= #[trigger] data.dist(n, x) implies (data.qdist(query, f) + data.qdist(query, n)) * (
    data.qdist(query, f) - data.qdist(query, n)) <= 2 * data.dist(f, n) * data.qdist(query, x) by {
        let pf = data.instance(f)@[0] as int;
        let pn = data.instance(n)@[0] as int;
        let px = data.instance(x)@[0] as int;
        assert(data.dist(f, n) == abs(pf - pn));
        lemma_line_bisects(pf, pn, px, q);
    }
}

} // verus!
