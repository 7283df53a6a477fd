//! The comparisons of distances by which a search prunes, computed without
//! overflow.

use vstd::prelude::*;
use crate::cluster::Cluster;
use crate::dataset::VecDataset;
use crate::metric::Metric;

verus! {

/// A ball of radius `ball` whose center is at distance `d` from the query
/// lies apart from the query ball of radius `radius`.
pub open spec fn is_apart(d: u64, ball: u64, radius: u64) -> bool {
    d > ball + radius
}

/// A ball of radius `ball` whose center is at distance `d` from the query
/// lies inside the query ball of radius `radius`.
pub open spec fn is_inside(d: u64, ball: u64, radius: u64) -> bool {
    ball + d <= radius
}

/// The query ball of radius `radius` reaches across the hyperplane that
/// bisects two poles at distance `polar` from each other: the query is at
/// distance `near` from the pole on its side and `far` from the other.
pub open spec fn reaches_across(near: u64, far: u64, polar: u64, radius: u64) -> bool {
    (near + far) * (far - near) <= 2 * polar * radius
}

/// Whether the ball lies apart from the query ball.
pub fn apart(d: u64, ball: u64, radius: u64) -> (res: bool)
    ensures
        res == is_apart(d, ball, radius),
{
    d as u128 > ball as u128 + radius as u128
}

/// Whether the ball lies inside the query ball.
pub fn inside(d: u64, ball: u64, radius: u64) -> (res: bool)
    ensures
        res == is_inside(d, ball, radius),
{
    ball as u128 + d as u128 <= radius as u128
}

/// Whether the query ball reaches across the bisecting hyperplane.
///
/// The two products may each need 129 bits. Sum and difference of the two
/// distances are both even or both odd, so half of the left side, rounded up,
/// is compared with half of the right side; both fit in 128 bits.
pub fn across(near: u64, far: u64, polar: u64, radius: u64) -> (res: bool)
    requires
        near <= far,
    ensures
        res == reaches_across(near, far, polar, radius),
{
    let sum: u128 = near as u128 + far as u128;
    let diff: u128 = (far - near) as u128;
    let half: u128 = sum / 2;
    assert(half * diff <= 0xffff_ffff_ffff_ffff * 0xffff_ffff_ffff_ffff) by (nonlinear_arith)
        requires
            half <= 0xffff_ffff_ffff_ffff,
            diff <= 0xffff_ffff_ffff_ffff,
    ;
    assert(polar * radius <= 0xffff_ffff_ffff_ffff * 0xffff_ffff_ffff_ffff) by (nonlinear_arith)
        requires
            polar <= 0xffff_ffff_ffff_ffff,
            radius <= 0xffff_ffff_ffff_ffff,
    ;
    let left: u128 = half * diff + if sum % 2 == 1 {
        (diff + 1) / 2
    } else {
        0
    };
    let right: u128 = polar as u128 * radius as u128;
    proof {
        let s: int = near + far;
        let d: int = far - near;
        let e: int = s % 2;
        let p: int = half as int * d;
        let q: int = polar as int * radius as int;
        assert(sum == s && diff == d && half == s / 2);
        assert(d % 2 == e);
        assert(s * d == 2 * p + e * d) by (nonlinear_arith)
            requires
                s == 2 * (half as int) + e,
                p == half as int * d,
        ;
        assert(e * d == if e == 1 { d } else { 0 }) by (nonlinear_arith)
            requires
                e == 0 || e == 1,
        ;
        assert(2 * polar * radius == 2 * q) by (nonlinear_arith)
            requires
                q == polar as int * radius as int,
        ;
        assert((near + far) * (far - near) == s * d);
        assert(right == q);
        assert(left == p + if e == 1 { (d + 1) / 2 } else { 0 });
        assert((left <= right) == (s * d <= 2 * q));
    }
    left <= right
}

impl Cluster {
    /// The children whose instances the query ball may hold, as the poles
    /// tell: both where the ball reaches across the hyperplane that bisects
    /// the poles, else the one whose pole is nearer to the query, and the
    /// right one where the poles are equally near.
    pub open spec fn overlapping<T: Sync, M: Metric<T> + Sync>(
        &self,
        data: &VecDataset<T, M>,
        query: &T,
        radius: u64,
    ) -> Seq<&Cluster> {
        let c = self.children->Some_0;
        let to_left = data.qdist(query, c.left_pole as int);
        let to_right = data.qdist(query, c.right_pole as int);
        if to_left < to_right {
            if reaches_across(to_left, to_right, c.polar_distance, radius) {
                seq![&c.left, &c.right]
            } else {
                seq![&c.left]
            }
        } else {
            if reaches_across(to_right, to_left, c.polar_distance, radius) {
                seq![&c.left, &c.right]
            } else {
                seq![&c.right]
            }
        }
    }

    /// The children whose instances the query ball of the given radius may
    /// hold.
    pub fn overlapping_children<'a, T: Sync, M: Metric<T> + Sync>(
        &'a self,
        data: &VecDataset<T, M>,
        query: &T,
        radius: u64,
    ) -> (res: Vec<&'a Cluster>)
        requires
            data.wf(),
            self.wf(data),
            self.children is Some,
        ensures
            res@ == self.overlapping(data, query, radius),
    {
        match &self.children {
            Some(c) => {
                proof {
                    assert(self.split_ok(&**c, data));
                    assert(c.left.wf(data) && c.right.wf(data));
                    let l = c.left.members();
                    let r = c.right.members();
                    let i = choose|i: int| 0 <= i < l.len() && l[i] == c.left_pole;
                    let j = choose|j: int| 0 <= j < r.len() && r[j] == c.right_pole;
                    assert(c.left.node_ok(data) && c.right.node_ok(data));
                    assert(l[i] < data.len() && r[j] < data.len());
                }
                let to_left = data.query_to_one(query, c.left_pole);
                let to_right = data.query_to_one(query, c.right_pole);
                let mut res: Vec<&Cluster> = Vec::new();
                if to_left < to_right {
                    res.push(&c.left);
                    if across(to_left, to_right, c.polar_distance, radius) {
                        res.push(&c.right);
                    }
                } else {
                    if across(to_right, to_left, c.polar_distance, radius) {
                        res.push(&c.left);
                    }
                    res.push(&c.right);
                }
                proof {
                    assert(res@ =~= self.overlapping(data, query, radius));
                }
                res
            },
            None => Vec::new(),
        }
    }
}

impl Cluster {
    /// The poles do not rule out the left child: its pole is the nearer one
    /// to the query, or the query ball reaches across the hyperplane that
    /// bisects the poles.
    pub open spec fn keeps_left<T: Sync, M: Metric<T> + Sync>(
        &self,
        data: &VecDataset<T, M>,
        query: &T,
        radius: u64,
    ) -> bool {
        let c = self.children->Some_0;
        let to_left = data.qdist(query, c.left_pole as int);
        let to_right = data.qdist(query, c.right_pole as int);
        to_left < to_right || reaches_across(to_right, to_left, c.polar_distance, radius)
    }

    /// The poles do not rule out the right child: its pole is no farther
    /// from the query than the other, or the query ball reaches across the
    /// hyperplane that bisects the poles.
    pub open spec fn keeps_right<T: Sync, M: Metric<T> + Sync>(
        &self,
        data: &VecDataset<T, M>,
        query: &T,
        radius: u64,
    ) -> bool {
        let c = self.children->Some_0;
        let to_left = data.qdist(query, c.left_pole as int);
        let to_right = data.qdist(query, c.right_pole as int);
        !(to_left < to_right) || reaches_across(to_left, to_right, c.polar_distance, radius)
    }

    /// No instance of the cluster is within the radius of the query.
    pub open spec fn holds_no_hit<T: Sync, M: Metric<T> + Sync>(
        &self,
        data: &VecDataset<T, M>,
        query: &T,
        radius: u64,
    ) -> bool {
        forall|x: usize| #[trigger]
            self.members().contains(x) ==> data.qdist(query, x as int) > radius
    }

    /// The descent from this cluster comes to list the instance at position
    /// `x`: the ball of the cluster is not apart from the query ball, and the
    /// instance is in the cluster if that is a leaf or has its ball inside
    /// the query ball; else the descent from a child that the poles do not
    /// rule out comes to list it.
    pub open spec fn covers<T: Sync, M: Metric<T> + Sync>(
        &self,
        data: &VecDataset<T, M>,
        query: &T,
        radius: u64,
        x: usize,
    ) -> bool
        decreases self,
    {
        let d = data.qdist(query, self.arg_center as int);
        if is_apart(d, self.radius, radius) {
            false
        } else if is_inside(d, self.radius, radius) {
            self.members().contains(x)
        } else {
            match self.children {
                None => self.members().contains(x),
                Some(c) => (self.keeps_left(data, query, radius) && c.left.covers(
                    data,
                    query,
                    radius,
                    x,
                )) || (self.keeps_right(data, query, radius) && c.right.covers(
                    data,
                    query,
                    radius,
                    x,
                )),
            }
        }
    }

    /// The descent from this cluster loses no hit to the poles: wherever it
    /// comes to a parent whose ball is neither apart from the query ball nor
    /// inside it, and the poles rule a child out, that child holds no
    /// instance within the radius; and so on down from the children that are
    /// kept.
    pub open spec fn keeps_every_hit<T: Sync, M: Metric<T> + Sync>(
        &self,
        data: &VecDataset<T, M>,
        query: &T,
        radius: u64,
    ) -> bool
        decreases self,
    {
        let d = data.qdist(query, self.arg_center as int);
        is_apart(d, self.radius, radius) || is_inside(d, self.radius, radius) || match self.children {
            None => true,
            Some(c) => {
                &&& if self.keeps_left(data, query, radius) {
                    c.left.keeps_every_hit(data, query, radius)
                } else {
                    c.left.holds_no_hit(data, query, radius)
                }
                &&& if self.keeps_right(data, query, radius) {
                    c.right.keeps_every_hit(data, query, radius)
                } else {
                    c.right.holds_no_hit(data, query, radius)
                }
            },
        }
    }
}

} // verus!
