//! Small numeric utilities shared by clustering and search.

use vstd::prelude::*;
use vstd::std_specs::cmp::{PartialOrdIs, PartialOrdSpec};

verus! {

/// `i` is the position of the first occurrence of the smallest value of `values`.
pub open spec fn is_first_min(values: Seq<u64>, i: int) -> bool {
    &&& 0 <= i < values.len()
    &&& forall|j: int| 0 <= j < values.len() ==> values[i] <= #[trigger] values[j]
    &&& forall|j: int| 0 <= j < i ==> values[i] < #[trigger] values[j]
}

/// `i` is the position of the first occurrence of the largest value of `values`.
pub open spec fn is_first_max(values: Seq<u64>, i: int) -> bool {
    &&& 0 <= i < values.len()
    &&& forall|j: int| 0 <= j < values.len() ==> #[trigger] values[j] <= values[i]
    &&& forall|j: int| 0 <= j < i ==> #[trigger] values[j] < values[i]
}

/// Values of the type are compared as its order says.
pub open spec fn obeys_order<T: PartialOrd>() -> bool {
    T::obeys_partial_cmp_spec()
}

/// The position of the least of the first `n` values, as a pass from the
/// left finds it: a value takes the place of the least so far if it is less.
pub open spec fn running_min<T: PartialOrd>(values: Seq<T>, n: int) -> int
    decreases n,
{
    if n <= 1 {
        0
    } else {
        let m = running_min(values, n - 1);
        if values[n - 1].is_lt(&values[m]) {
            n - 1
        } else {
            m
        }
    }
}

/// The position of the greatest of the first `n` values, as a pass from the
/// left finds it: a value takes the place of the greatest so far if it is
/// greater.
pub open spec fn running_max<T: PartialOrd>(values: Seq<T>, n: int) -> int
    decreases n,
{
    if n <= 1 {
        0
    } else {
        let m = running_max(values, n - 1);
        if values[n - 1].is_gt(&values[m]) {
            n - 1
        } else {
            m
        }
    }
}

/// Among integers the pass from the left finds the first occurrence of the
/// smallest value.
pub proof fn lemma_running_min(values: Seq<u64>, n: int)
    requires
        1 <= n <= values.len(),
    ensures
        is_first_min(values.take(n), running_min(values, n)),
    decreases n,
{
    if n > 1 {
        lemma_running_min(values, n - 1);
        let before = values.take(n - 1);
        let now = values.take(n);
        assert forall|j: int| 0 <= j < n - 1 implies now[j] == before[j] by {}
    }
}

/// Among integers the pass from the left finds the first occurrence of the
/// largest value.
pub proof fn lemma_running_max(values: Seq<u64>, n: int)
    requires
        1 <= n <= values.len(),
    ensures
        is_first_max(values.take(n), running_max(values, n)),
    decreases n,
{
    if n > 1 {
        lemma_running_max(values, n - 1);
        let before = values.take(n - 1);
        let now = values.take(n);
        assert forall|j: int| 0 <= j < n - 1 implies now[j] == before[j] by {}
    }
}

/// Position and value of the least element, as a pass from the left finds
/// it; among integers, the first occurrence of the smallest value.
pub fn arg_min<T: PartialOrd + Copy>(values: &[T]) -> (res: (usize, T))
    requires
        values@.len() > 0,
    ensures
        res.0 < values@.len(),
        res.1 == values@[res.0 as int],
        obeys_order::<T>() ==> res.0 == running_min(values@, values@.len() as int),
{
    let mut i_min: usize = 0;
    let mut v_min: T = values[0];
    let mut i: usize = 1;
    while i < values.len()
        invariant
            1 <= i <= values@.len(),
            i_min < i,
            v_min == values@[i_min as int],
            obeys_order::<T>() ==> i_min == running_min(values@, i as int),
        decreases values@.len() - i,
    {
        let v = values[i];
        if v < v_min {
            i_min = i;
            v_min = v;
        }
        i += 1;
    }
    (i_min, v_min)
}

/// Position and value of the greatest element, as a pass from the left
/// finds it; among integers, the first occurrence of the largest value.
pub fn arg_max<T: PartialOrd + Copy>(values: &[T]) -> (res: (usize, T))
    requires
        values@.len() > 0,
    ensures
        res.0 < values@.len(),
        res.1 == values@[res.0 as int],
        obeys_order::<T>() ==> res.0 == running_max(values@, values@.len() as int),
{
    let mut i_max: usize = 0;
    let mut v_max: T = values[0];
    let mut i: usize = 1;
    while i < values.len()
        invariant
            1 <= i <= values@.len(),
            i_max < i,
            v_max == values@[i_max as int],
            obeys_order::<T>() ==> i_max == running_max(values@, i as int),
        decreases values@.len() - i,
    {
        let v = values[i];
        if v > v_max {
            i_max = i;
            v_max = v;
        }
        i += 1;
    }
    (i_max, v_max)
}

/// Position and value of the largest of the distances, the first where
/// several are as large.
pub fn farthest(distances: &[u64]) -> (res: (usize, u64))
    requires
        distances@.len() > 0,
    ensures
        is_first_max(distances@, res.0 as int),
        res.1 == distances@[res.0 as int],
{
    let res = arg_max(distances);
    proof {
        lemma_running_max(distances@, distances@.len() as int);
        assert(distances@.take(distances@.len() as int) =~= distances@);
    }
    res
}

} // verus!

verus! {

/// `r` is the integer square root of `n`: the largest `r` with `r * r <= n`.
pub open spec fn is_isqrt(n: nat, r: nat) -> bool {
    r * r <= n < (r + 1) * (r + 1)
}

/// The integer square root of `n`.
pub fn isqrt(n: usize) -> (r: usize)
    ensures
        is_isqrt(n as nat, r as nat),
{
    let mut lo: u128 = 0;
    let mut hi: u128 = 0x1_0000_0000_0000_0000;
    assert(n < hi * hi) by (nonlinear_arith)
        requires
            hi == 0x1_0000_0000_0000_0000u128,
            n <= usize::MAX,
    ;
    while hi - lo > 1
        invariant
            lo < hi <= 0x1_0000_0000_0000_0000,
            lo * lo <= n < hi * hi,
        decreases hi - lo,
    {
        let mid: u128 = lo + (hi - lo) / 2;
        assert(mid * mid < 0x1_0000_0000_0000_0000 * 0x1_0000_0000_0000_0000) by (nonlinear_arith)
            requires
                mid < 0x1_0000_0000_0000_0000,
        ;
        if mid * mid <= n as u128 {
            lo = mid;
        } else {
            hi = mid;
        }
    }
    assert(lo + 1 == hi);
    assert(lo <= usize::MAX) by (nonlinear_arith)
        requires
            lo * lo <= n,
            n <= usize::MAX,
            usize::MAX <= 0xffff_ffff_ffff_ffff,
    ;
    lo as usize
}

/// How many of the first `n` values are at most `bound`.
pub open spec fn count_within(values: Seq<u64>, bound: int, n: int) -> nat
    decreases n,
{
    if n <= 0 {
        0
    } else {
        count_within(values, bound, n - 1) + if values[n - 1] <= bound {
            1nat
        } else {
            0nat
        }
    }
}

/// A local fractal dimension, kept as the two counts whose ratio it is the
/// binary logarithm of: `log2(count / half_count)`.
#[derive(Clone, Copy, Debug, PartialEq, Eq, Structural)]
pub struct Lfd {
    /// How many instances lie within the radius.
    pub count: usize,
    /// How many instances lie within half the radius; never zero.
    pub half_count: usize,
}

/// The local fractal dimension of `distances` at the length scale `radius`.
///
/// With `half` the number of distances that are at most half the radius, it is
/// `log2(len / half)`, and it is one, that is `log2(2 / 1)`, where the radius
/// is zero or `half` is.
pub open spec fn lfd_of(distances: Seq<u64>, radius: u64) -> Lfd {
    let half = count_within(distances, radius as int / 2, distances.len() as int);
    if radius == 0 || half == 0 {
        Lfd { count: 2, half_count: 1 }
    } else {
        Lfd { count: distances.len() as usize, half_count: half as usize }
    }
}

/// Estimates the local fractal dimension from the distances of a cluster's
/// members to its center.
pub fn compute_lfd(distances: &[u64], radius: u64) -> (lfd: Lfd)
    ensures
        lfd == lfd_of(distances@, radius),
        lfd.half_count >= 1,
{
    if radius == 0 {
        return Lfd { count: 2, half_count: 1 };
    }
    let half_radius: u64 = radius / 2;
    let mut half: usize = 0;
    let mut i: usize = 0;
    while i < distances.len()
        invariant
            i <= distances@.len(),
            half == count_within(distances@, half_radius as int, i as int),
            half <= i,
        decreases distances@.len() - i,
    {
        if distances[i] <= half_radius {
            half += 1;
        }
        i += 1;
    }
    if half == 0 {
        Lfd { count: 2, half_count: 1 }
    } else {
        Lfd { count: distances.len(), half_count: half }
    }
}

} // verus!
