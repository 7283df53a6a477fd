//! Range search by descent of the tree: whole clusters are taken or left by
//! the triangle inequality, and only the leaves on the border of the query
//! ball are searched instance by instance.

use vstd::prelude::*;
use crate::cluster::Cluster;
use crate::counting::{
    clusters_of, count_of, holds, indices_of, lemma_clusters_push, lemma_count_concat,
    lemma_count_contains, lemma_count_no_duplicates, lemma_counts_give_no_duplicates,
    lemma_indices_concat, lemma_tally_at_least, lemma_tally_push, lemma_tally_take,
    lemma_weight_push, tally, weight,
};
use crate::dataset::{all_below, VecDataset};
use crate::geometry::{across, apart, inside, is_apart, is_inside, reaches_across};
use crate::metric::Metric;
use crate::rnn::Algorithm;
use crate::tree::Tree;

verus! {

impl Cluster {
    /// The center of a sound cluster is a position of the dataset.
    pub proof fn lemma_center_in_range<T: Sync, M: Metric<T> + Sync>(
        &self,
        data: &VecDataset<T, M>,
    )
        requires
            self.node_ok(data),
        ensures
            self.arg_center < data.len(),
            self.arg_radius < data.len(),
    {
        let m = self.members();
        let i = choose|i: int| 0 <= i < m.len() && m[i] == self.arg_center;
        let j = choose|j: int| 0 <= j < m.len() && m[j] == self.arg_radius;
        assert(m[i] < data.len() && m[j] < data.len());
    }

    /// The polar distance of a parent is the distance between the poles of
    /// its children, and each child has a share of the instances: the left
    /// child no smaller one than the right child.
    pub proof fn lemma_children<T: Sync, M: Metric<T> + Sync>(&self, data: &VecDataset<T, M>)
        requires
            self.wf(data),
            self.children is Some,
            data.is_symmetric(),
        ensures
            self.children->Some_0.polar_distance == data.dist(
                self.children->Some_0.left_pole as int,
                self.children->Some_0.right_pole as int,
            ),
            self.cardinality == self.children->Some_0.left.cardinality
                + self.children->Some_0.right.cardinality,
            self.children->Some_0.left.cardinality >= self.children->Some_0.right.cardinality,
            self.children->Some_0.right.cardinality >= 1,
            self.cardinality >= 2,
    {
        let c = self.children->Some_0;
        assert(self.split_ok(&*c, data));
        assert(c.left.wf(data) && c.right.wf(data));
        c.left.lemma_center_in_range(data);
        c.right.lemma_center_in_range(data);
        let lm = c.left.members();
        let rm = c.right.members();
        let li = choose|i: int| 0 <= i < lm.len() && lm[i] == c.left_pole;
        let ri = choose|i: int| 0 <= i < rm.len() && rm[i] == c.right_pole;
        assert(lm[li] < data.len() && rm[ri] < data.len());
        assert(data.dist(c.left_pole as int, c.right_pole as int) == data.dist(
            c.right_pole as int,
            c.left_pole as int,
        ));
    }

    /// The radius of a cluster is zero exactly if its instances are all at
    /// distance zero from each other, where distances are symmetric and obey
    /// the triangle inequality.
    pub proof fn lemma_radius_zero_means_equal<T: Sync, M: Metric<T> + Sync>(
        &self,
        data: &VecDataset<T, M>,
    )
        requires
            self.node_ok(data),
            data.is_symmetric(),
            data.obeys_triangle(),
        ensures
            self.radius == 0 <==> forall|i: int, j: int|
                0 <= i < self.members().len() && 0 <= j < self.members().len() ==> data.dist(
                    #[trigger] self.members()[i] as int,
                    #[trigger] self.members()[j] as int,
                ) == 0,
    {
        let m = self.members();
        let c = self.arg_center;
        self.lemma_center_in_range(data);
        let ci = choose|i: int| 0 <= i < m.len() && m[i] == self.arg_center;
        let ri = choose|i: int| 0 <= i < m.len() && m[i] == self.arg_radius;
        if self.radius == 0 {
            assert forall|i: int, j: int| 0 <= i < m.len() && 0 <= j < m.len() implies data.dist(
                #[trigger] m[i] as int,
                #[trigger] m[j] as int,
            ) == 0 by {
                assert(m[i] < data.len() && m[j] < data.len());
                assert(data.dist(c as int, m[i] as int) <= self.radius);
                assert(data.dist(c as int, m[j] as int) <= self.radius);
                assert(data.dist(m[i] as int, c as int) == data.dist(c as int, m[i] as int));
                assert(data.dist(m[i] as int, m[j] as int) <= data.dist(m[i] as int, c as int)
                    + data.dist(c as int, m[j] as int));
            }
        } else {
            assert(data.dist(m[ci] as int, m[ri] as int) != 0);
        }
    }

    /// A cluster whose ball lies apart from the query ball holds no instance
    /// within the radius.
    pub proof fn lemma_apart<T: Sync, M: Metric<T> + Sync>(
        &self,
        data: &VecDataset<T, M>,
        query: &T,
        radius: u64,
        x: usize,
    )
        requires
            self.node_ok(data),
            data.is_metric_for(query),
            is_apart(data.qdist(query, self.arg_center as int), self.radius, radius),
            self.members().contains(x),
        ensures
            data.qdist(query, x as int) > radius,
    {
        self.lemma_center_in_range(data);
        let m = self.members();
        let i = choose|i: int| 0 <= i < m.len() && m[i] == x;
        assert(m[i] < data.len());
        assert(data.dist(self.arg_center as int, m[i] as int) <= self.radius);
        assert(data.dist(x as int, self.arg_center as int) == data.dist(
            self.arg_center as int,
            x as int,
        ));
    }

    /// A cluster whose ball lies inside the query ball holds only instances
    /// within the radius.
    pub proof fn lemma_inside<T: Sync, M: Metric<T> + Sync>(
        &self,
        data: &VecDataset<T, M>,
        query: &T,
        radius: u64,
        x: usize,
    )
        requires
            self.node_ok(data),
            data.query_obeys_triangle(query),
            is_inside(data.qdist(query, self.arg_center as int), self.radius, radius),
            self.members().contains(x),
        ensures
            data.qdist(query, x as int) <= radius,
    {
        self.lemma_center_in_range(data);
        let m = self.members();
        let i = choose|i: int| 0 <= i < m.len() && m[i] == x;
        assert(m[i] < data.len());
        assert(data.dist(self.arg_center as int, m[i] as int) <= self.radius);
    }

    /// Every instance of a cluster of radius zero is as far from the query
    /// as the center is.
    pub proof fn lemma_singleton<T: Sync, M: Metric<T> + Sync>(
        &self,
        data: &VecDataset<T, M>,
        query: &T,
        x: usize,
    )
        requires
            self.node_ok(data),
            data.is_metric_for(query),
            self.radius == 0,
            self.members().contains(x),
        ensures
            data.qdist(query, x as int) == data.qdist(query, self.arg_center as int),
    {
        self.lemma_center_in_range(data);
        let m = self.members();
        let i = choose|i: int| 0 <= i < m.len() && m[i] == x;
        assert(m[i] < data.len());
        assert(data.dist(self.arg_center as int, m[i] as int) <= self.radius);
        assert(data.dist(x as int, self.arg_center as int) == data.dist(
            self.arg_center as int,
            x as int,
        ));
    }

    /// The two children share the instances of their parent: each instance
    /// of the parent is in exactly one of them.
    pub proof fn lemma_children_share<T: Sync, M: Metric<T> + Sync>(
        &self,
        data: &VecDataset<T, M>,
        x: usize,
    )
        requires
            self.wf(data),
            self.children is Some,
        ensures
            holds(&self.children->Some_0.left, x) + holds(&self.children->Some_0.right, x)
                == holds(self, x),
    {
        let c = self.children->Some_0;
        let l = c.left.members();
        let r = c.right.members();
        let m = self.members();
        assert(self.split_ok(&*c, data));
        assert(m == l + r);
        if l.contains(x) {
            let i = choose|i: int| 0 <= i < l.len() && l[i] == x;
            assert(m[i] == x);
            if r.contains(x) {
                let j = choose|j: int| 0 <= j < r.len() && r[j] == x;
                assert(m[l.len() + j] == x);
            }
        }
        if r.contains(x) {
            let j = choose|j: int| 0 <= j < r.len() && r[j] == x;
            assert(m[l.len() + j] == x);
        }
        if m.contains(x) {
            let i = choose|i: int| 0 <= i < m.len() && m[i] == x;
            if i < l.len() {
                assert(l[i] == x);
            } else {
                assert(r[i - l.len()] == x);
            }
        }
    }

    /// A child that the poles rule out holds no instance within the radius,
    /// if the space is flat.
    pub proof fn lemma_pruned<T: Sync, M: Metric<T> + Sync>(
        &self,
        data: &VecDataset<T, M>,
        query: &T,
        radius: u64,
        x: usize,
    )
        requires
            data.wf(),
            self.wf(data),
            self.children is Some,
            data.is_symmetric(),
            data.is_flat_for(query),
            self.members().contains(x),
            data.qdist(query, x as int) <= radius,
        ensures
            exists|k: int|
                0 <= k < self.overlapping(data, query, radius).len() && (#[trigger] self.overlapping(
                    data,
                    query,
                    radius,
                )[k]).members().contains(x),
    {
        let c = self.children->Some_0;
        let kept = self.overlapping(data, query, radius);
        self.lemma_children_share(data, x);
        assert(self.split_ok(&*c, data));
        assert(c.left.wf(data) && c.right.wf(data));
        let a = self.arg_radius;
        let b = if c.left_pole == a {
            c.right_pole
        } else {
            c.left_pole
        };
        let lm = c.left.members();
        let rm = c.right.members();
        let li = choose|i: int| 0 <= i < lm.len() && lm[i] == c.left_pole;
        let ri = choose|i: int| 0 <= i < rm.len() && rm[i] == c.right_pole;
        assert(lm[li] < data.len() && rm[ri] < data.len());
        let to_left = data.qdist(query, c.left_pole as int);
        let to_right = data.qdist(query, c.right_pole as int);
        let m = self.members();
        let xi = choose|i: int| 0 <= i < m.len() && m[i] == x;
        assert(m[xi] < data.len());
        assert(data.dist(a as int, b as int) == data.dist(b as int, a as int));
        assert(data.dist(a as int, a as int) == 0);
        assert(data.dist(b as int, b as int) == 0);
        if kept.len() == 2 {
            if lm.contains(x) {
                assert(kept[0].members().contains(x));
            } else {
                assert(kept[1].members().contains(x));
            }
        } else if to_left < to_right {
            // the right child was ruled out
            assert(kept[0] == &c.left);
            if rm.contains(x) {
                let k = choose|k: int| 0 <= k < rm.len() && rm[k] == x;
                if c.left_pole == a {
                    assert(Self::sides_with_second(data, a, b, rm[k]));
                } else {
                    assert(Self::sides_with_first(data, a, b, rm[k]));
                }
                let f = c.right_pole;
                let n = c.left_pole;
                assert(data.dist(f as int, x as int) <= data.dist(n as int, x as int));
                Self::lemma_far_side(
                    to_left,
                    to_right,
                    c.polar_distance,
                    radius,
                    data.dist(f as int, n as int),
                    data.qdist(query, x as int),
                );
            }
            assert(kept[0].members().contains(x));
        } else {
            // the left child was ruled out
            assert(kept[0] == &c.right);
            if lm.contains(x) {
                let k = choose|k: int| 0 <= k < lm.len() && lm[k] == x;
                if c.left_pole == a {
                    assert(Self::sides_with_first(data, a, b, lm[k]));
                } else {
                    assert(Self::sides_with_second(data, a, b, lm[k]));
                }
                let f = c.left_pole;
                let n = c.right_pole;
                assert(data.dist(f as int, x as int) <= data.dist(n as int, x as int));
                Self::lemma_far_side(
                    to_right,
                    to_left,
                    c.polar_distance,
                    radius,
                    data.dist(f as int, n as int),
                    data.qdist(query, x as int),
                );
            }
            assert(kept[0].members().contains(x));
        }
    }

    /// An instance of a child is its pole, or no farther from its pole than
    /// from the pole of the other child.
    pub proof fn lemma_sides<T: Sync, M: Metric<T> + Sync>(
        &self,
        data: &VecDataset<T, M>,
        x: usize,
    )
        requires
            self.wf(data),
            self.children is Some,
        ensures
            self.children->Some_0.left_pole < data.len(),
            self.children->Some_0.right_pole < data.len(),
            self.children->Some_0.left.members().contains(x) ==> x < data.len() && (x
                == self.children->Some_0.left_pole || data.dist(
                self.children->Some_0.left_pole as int,
                x as int,
            ) <= data.dist(self.children->Some_0.right_pole as int, x as int)),
            self.children->Some_0.right.members().contains(x) ==> x < data.len() && (x
                == self.children->Some_0.right_pole || data.dist(
                self.children->Some_0.right_pole as int,
                x as int,
            ) <= data.dist(self.children->Some_0.left_pole as int, x as int)),
            self.children->Some_0.polar_distance == data.dist(
                self.children->Some_0.left_pole as int,
                self.children->Some_0.right_pole as int,
            ) || self.children->Some_0.polar_distance == data.dist(
                self.children->Some_0.right_pole as int,
                self.children->Some_0.left_pole as int,
            ),
    {
        let c = self.children->Some_0;
        assert(self.split_ok(&*c, data));
        assert(c.left.wf(data) && c.right.wf(data));
        let a = self.arg_radius;
        let b = if c.left_pole == a {
            c.right_pole
        } else {
            c.left_pole
        };
        let lm = c.left.members();
        let rm = c.right.members();
        let li = choose|i: int| 0 <= i < lm.len() && lm[i] == c.left_pole;
        let ri = choose|i: int| 0 <= i < rm.len() && rm[i] == c.right_pole;
        assert(lm[li] < data.len() && rm[ri] < data.len());
        if lm.contains(x) {
            let k = choose|k: int| 0 <= k < lm.len() && lm[k] == x;
            assert(lm[k] < data.len());
            if c.left_pole == a {
                assert(Self::sides_with_first(data, a, b, lm[k]));
            } else {
                assert(Self::sides_with_second(data, a, b, lm[k]));
            }
        }
        if rm.contains(x) {
            let k = choose|k: int| 0 <= k < rm.len() && rm[k] == x;
            assert(rm[k] < data.len());
            if c.left_pole == a {
                assert(Self::sides_with_second(data, a, b, rm[k]));
            } else {
                assert(Self::sides_with_first(data, a, b, rm[k]));
            }
        }
    }

    /// Where the descent loses no hit to the poles, an instance within the
    /// radius is in one of the children that the poles leave.
    pub proof fn lemma_kept<T: Sync, M: Metric<T> + Sync>(
        &self,
        data: &VecDataset<T, M>,
        query: &T,
        radius: u64,
        x: usize,
    )
        requires
            self.wf(data),
            self.children is Some,
            self.keeps_every_hit(data, query, radius),
            !is_apart(data.qdist(query, self.arg_center as int), self.radius, radius),
            !is_inside(data.qdist(query, self.arg_center as int), self.radius, radius),
            self.members().contains(x),
            data.qdist(query, x as int) <= radius,
        ensures
            exists|k: int|
                0 <= k < self.overlapping(data, query, radius).len() && (#[trigger] self.overlapping(
                    data,
                    query,
                    radius,
                )[k]).members().contains(x),
    {
        let c = self.children->Some_0;
        let kept = self.overlapping(data, query, radius);
        self.lemma_children_share(data, x);
        if c.left.members().contains(x) {
            assert(self.keeps_left(data, query, radius));
            assert(kept[0] == &c.left);
            assert(kept[0].members().contains(x));
        } else {
            assert(c.right.members().contains(x));
            assert(self.keeps_right(data, query, radius));
            assert(kept[kept.len() - 1] == &c.right);
            assert(kept[kept.len() - 1].members().contains(x));
        }
    }

    /// Where the descent loses no hit to the poles, it loses none from the
    /// children that the poles leave.
    pub proof fn lemma_kept_keep<T: Sync, M: Metric<T> + Sync>(
        &self,
        data: &VecDataset<T, M>,
        query: &T,
        radius: u64,
    )
        requires
            self.children is Some,
            self.keeps_every_hit(data, query, radius),
            !is_apart(data.qdist(query, self.arg_center as int), self.radius, radius),
            !is_inside(data.qdist(query, self.arg_center as int), self.radius, radius),
        ensures
            forall|k: int|
                0 <= k < self.overlapping(data, query, radius).len() ==> (#[trigger] self.overlapping(
                    data,
                    query,
                    radius,
                )[k]).keeps_every_hit(data, query, radius),
    {
        let c = self.children->Some_0;
        let kept = self.overlapping(data, query, radius);
        assert forall|k: int| 0 <= k < kept.len() implies (#[trigger] kept[k]).keeps_every_hit(
            data,
            query,
            radius,
        ) by {
            if kept.len() == 2 {
                assert(kept[0] == &c.left && kept[1] == &c.right);
            } else {
                assert(kept[0] == &c.left || kept[0] == &c.right);
            }
        }
    }

    /// In a flat space the descent loses no hit to the poles, whatever the
    /// radius.
    pub proof fn lemma_flat_keeps_every_hit<T: Sync, M: Metric<T> + Sync>(
        &self,
        data: &VecDataset<T, M>,
        query: &T,
        radius: u64,
    )
        requires
            data.wf(),
            self.wf(data),
            data.is_symmetric(),
            data.is_flat_for(query),
        ensures
            self.keeps_every_hit(data, query, radius),
        decreases self,
    {
        if self.children is Some {
            let c = self.children->Some_0;
            let kept = self.overlapping(data, query, radius);
            assert(c.left.wf(data) && c.right.wf(data));
            c.left.lemma_flat_keeps_every_hit(data, query, radius);
            c.right.lemma_flat_keeps_every_hit(data, query, radius);
            if !self.keeps_left(data, query, radius) {
                assert forall|x: usize| #[trigger]
                    c.left.members().contains(x) implies data.qdist(query, x as int) > radius by {
                    if data.qdist(query, x as int) <= radius {
                        self.lemma_children_share(data, x);
                        self.lemma_pruned(data, query, radius, x);
                        assert(kept =~= seq![&c.right]);
                    }
                }
            }
            if !self.keeps_right(data, query, radius) {
                assert forall|x: usize| #[trigger]
                    c.right.members().contains(x) implies data.qdist(query, x as int) > radius by {
                    if data.qdist(query, x as int) <= radius {
                        self.lemma_children_share(data, x);
                        self.lemma_pruned(data, query, radius, x);
                        assert(kept =~= seq![&c.left]);
                    }
                }
            }
        }
    }

    /// With radius zero the descent loses no hit to the poles, if the query
    /// and the instances are points of one metric space.
    pub proof fn lemma_radius_zero_keeps_every_hit<T: Sync, M: Metric<T> + Sync>(
        &self,
        data: &VecDataset<T, M>,
        query: &T,
    )
        requires
            data.wf(),
            self.wf(data),
            data.is_true_distance_for(query),
        ensures
            self.keeps_every_hit(data, query, 0),
        decreases self,
    {
        if self.children is Some {
            let c = self.children->Some_0;
            assert(c.left.wf(data) && c.right.wf(data));
            c.left.lemma_radius_zero_keeps_every_hit(data, query);
            c.right.lemma_radius_zero_keeps_every_hit(data, query);
            let lp = c.left_pole as int;
            let rp = c.right_pole as int;
            let to_left = data.qdist(query, lp);
            let to_right = data.qdist(query, rp);
            if !self.keeps_left(data, query, 0) {
                assert forall|x: usize| #[trigger]
                    c.left.members().contains(x) implies data.qdist(query, x as int) > 0 by {
                    if data.qdist(query, x as int) == 0 {
                        self.lemma_sides(data, x);
                        if x != c.left_pole {
                            assert(to_left <= data.qdist(query, x as int) + data.dist(x as int, lp));
                            assert(data.dist(x as int, lp) == data.dist(lp, x as int));
                            assert(data.dist(rp, x as int) <= data.qdist(query, rp) + data.qdist(
                                query,
                                x as int,
                            ));
                        }
                        assert(to_left == to_right);
                        assert((to_right + to_left) * (to_left - to_right) == 0) by (nonlinear_arith)
                            requires
                                to_left == to_right,
                        ;
                    }
                }
            }
            if !self.keeps_right(data, query, 0) {
                assert forall|x: usize| #[trigger]
                    c.right.members().contains(x) implies data.qdist(query, x as int) > 0 by {
                    if data.qdist(query, x as int) == 0 {
                        self.lemma_sides(data, x);
                        if x != c.right_pole {
                            assert(to_right <= data.qdist(query, x as int) + data.dist(
                                x as int,
                                rp,
                            ));
                            assert(data.dist(x as int, rp) == data.dist(rp, x as int));
                            assert(data.dist(lp, x as int) <= data.qdist(query, lp) + data.qdist(
                                query,
                                x as int,
                            ));
                        }
                    }
                }
            }
        }
    }

    /// With the greatest radius there is the poles rule nothing out, and the
    /// descent loses no hit, if the metric keeps its promises to the query.
    pub proof fn lemma_whole_ball_keeps_every_hit<T: Sync, M: Metric<T> + Sync>(
        &self,
        data: &VecDataset<T, M>,
        query: &T,
    )
        requires
            data.wf(),
            self.wf(data),
            data.is_metric_for(query),
        ensures
            self.keeps_every_hit(data, query, u64::MAX),
        decreases self,
    {
        if self.children is Some {
            let c = self.children->Some_0;
            assert(c.left.wf(data) && c.right.wf(data));
            c.left.lemma_whole_ball_keeps_every_hit(data, query);
            c.right.lemma_whole_ball_keeps_every_hit(data, query);
            self.lemma_sides(data, 0);
            let lp = c.left_pole as int;
            let rp = c.right_pole as int;
            let to_left = data.qdist(query, lp);
            let to_right = data.qdist(query, rp);
            let polar = c.polar_distance;
            assert(data.dist(lp, rp) == data.dist(rp, lp));
            assert(to_right <= to_left + data.dist(lp, rp));
            assert(to_left <= to_right + data.dist(rp, lp));
            if to_left < to_right {
                assert((to_left + to_right) * (to_right - to_left) <= 2 * polar * u64::MAX)
                    by (nonlinear_arith)
                    requires
                        0 <= to_left < to_right <= u64::MAX,
                        to_right - to_left <= polar,
                ;
            } else {
                assert((to_right + to_left) * (to_left - to_right) <= 2 * polar * u64::MAX)
                    by (nonlinear_arith)
                    requires
                        0 <= to_right <= to_left <= u64::MAX,
                        to_left - to_right <= polar,
                ;
            }
        }
    }

    /// What the descent from a cluster comes to list is in the cluster.
    pub proof fn lemma_covers_member<T: Sync, M: Metric<T> + Sync>(
        &self,
        data: &VecDataset<T, M>,
        query: &T,
        radius: u64,
        x: usize,
    )
        requires
            self.wf(data),
            self.covers(data, query, radius, x),
        ensures
            self.members().contains(x),
        decreases self,
    {
        if self.children is Some && !self.members().contains(x) {
            let c = self.children->Some_0;
            assert(c.left.wf(data) && c.right.wf(data));
            self.lemma_children_share(data, x);
            if c.left.covers(data, query, radius, x) {
                c.left.lemma_covers_member(data, query, radius, x);
            }
            if c.right.covers(data, query, radius, x) {
                c.right.lemma_covers_member(data, query, radius, x);
            }
        }
    }

    /// Where a parent is replaced by the children that the poles leave, the
    /// descent comes to list from them what it came to list from the parent,
    /// and from one of them only.
    pub proof fn lemma_covers_split<T: Sync, M: Metric<T> + Sync>(
        &self,
        data: &VecDataset<T, M>,
        query: &T,
        radius: u64,
        x: usize,
    )
        requires
            self.wf(data),
            self.children is Some,
            !is_apart(data.qdist(query, self.arg_center as int), self.radius, radius),
            !is_inside(data.qdist(query, self.arg_center as int), self.radius, radius),
        ensures
            ({
                let kept = self.overlapping(data, query, radius);
                if kept.len() == 2 {
                    self.covers(data, query, radius, x) == (kept[0].covers(data, query, radius, x)
                        || kept[1].covers(data, query, radius, x)) && !(kept[0].covers(
                        data,
                        query,
                        radius,
                        x,
                    ) && kept[1].covers(data, query, radius, x))
                } else {
                    kept.len() == 1 && self.covers(data, query, radius, x) == kept[0].covers(
                        data,
                        query,
                        radius,
                        x,
                    )
                }
            }),
    {
        let c = self.children->Some_0;
        let kept = self.overlapping(data, query, radius);
        assert(c.left.wf(data) && c.right.wf(data));
        self.lemma_children_share(data, x);
        if c.left.covers(data, query, radius, x) {
            c.left.lemma_covers_member(data, query, radius, x);
        }
        if c.right.covers(data, query, radius, x) {
            c.right.lemma_covers_member(data, query, radius, x);
        }
        if kept.len() == 2 {
            assert(kept[0] == &c.left && kept[1] == &c.right);
        } else {
            assert(kept[0] == &c.left || kept[0] == &c.right);
        }
    }

    /// Where the descent loses no hit to the poles, it comes to list every
    /// instance within the radius, if the metric keeps its promises to the
    /// query.
    pub proof fn lemma_keeps_means_covers<T: Sync, M: Metric<T> + Sync>(
        &self,
        data: &VecDataset<T, M>,
        query: &T,
        radius: u64,
        x: usize,
    )
        requires
            self.wf(data),
            data.is_metric_for(query),
            self.keeps_every_hit(data, query, radius),
            self.members().contains(x),
            data.qdist(query, x as int) <= radius,
        ensures
            self.covers(data, query, radius, x),
        decreases self,
    {
        let d = data.qdist(query, self.arg_center as int);
        if is_apart(d, self.radius, radius) {
            self.lemma_apart(data, query, radius, x);
        } else if !is_inside(d, self.radius, radius) && self.children is Some {
            let c = self.children->Some_0;
            assert(c.left.wf(data) && c.right.wf(data));
            self.lemma_children_share(data, x);
            if c.left.members().contains(x) {
                c.left.lemma_keeps_means_covers(data, query, radius, x);
            } else {
                c.right.lemma_keeps_means_covers(data, query, radius, x);
            }
        }
    }

    /// Where the descent comes to list every instance within the radius, it
    /// loses no hit to the poles.
    pub proof fn lemma_covers_means_keeps<T: Sync, M: Metric<T> + Sync>(
        &self,
        data: &VecDataset<T, M>,
        query: &T,
        radius: u64,
    )
        requires
            self.wf(data),
            forall|x: usize|
                self.members().contains(x) && data.qdist(query, x as int) <= radius
                    ==> #[trigger] self.covers(data, query, radius, x),
        ensures
            self.keeps_every_hit(data, query, radius),
        decreases self,
    {
        let d = data.qdist(query, self.arg_center as int);
        if !is_apart(d, self.radius, radius) && !is_inside(d, self.radius, radius)
            && self.children is Some {
            let c = self.children->Some_0;
            assert(c.left.wf(data) && c.right.wf(data));
            assert forall|x: usize|
                c.left.members().contains(x) && data.qdist(query, x as int) <= radius implies (
            self.keeps_left(data, query, radius) && #[trigger] c.left.covers(
                data,
                query,
                radius,
                x,
            )) by {
                self.lemma_children_share(data, x);
                assert(self.covers(data, query, radius, x));
                if c.right.covers(data, query, radius, x) {
                    c.right.lemma_covers_member(data, query, radius, x);
                }
            }
            assert forall|x: usize|
                c.right.members().contains(x) && data.qdist(query, x as int) <= radius implies (
            self.keeps_right(data, query, radius) && #[trigger] c.right.covers(
                data,
                query,
                radius,
                x,
            )) by {
                self.lemma_children_share(data, x);
                assert(self.covers(data, query, radius, x));
                if c.left.covers(data, query, radius, x) {
                    c.left.lemma_covers_member(data, query, radius, x);
                }
            }
            if self.keeps_left(data, query, radius) {
                c.left.lemma_covers_means_keeps(data, query, radius);
            } else {
                assert forall|x: usize| #[trigger]
                    c.left.members().contains(x) implies data.qdist(query, x as int) > radius by {
                    if data.qdist(query, x as int) <= radius {
                        assert(c.left.covers(data, query, radius, x));
                    }
                }
            }
            if self.keeps_right(data, query, radius) {
                c.right.lemma_covers_means_keeps(data, query, radius);
            } else {
                assert forall|x: usize| #[trigger]
                    c.right.members().contains(x) implies data.qdist(query, x as int) > radius by {
                    if data.qdist(query, x as int) <= radius {
                        assert(c.right.covers(data, query, radius, x));
                    }
                }
            }
        }
    }

    /// A query ball that does not reach across the bisecting hyperplane is
    /// too small to hold an instance that the hyperplane separates from the
    /// query.
    pub proof fn lemma_far_side(near: u64, far: u64, polar: u64, radius: u64, poles: u64, d: u64)
        requires
            !reaches_across(near, far, polar, radius),
            poles == polar,
            (far + near) * (far - near) <= 2 * poles * d,
        ensures
            d > radius,
    {
        assert((near + far) * (far - near) == (far + near) * (far - near)) by (nonlinear_arith);
        if d <= radius {
            assert(2 * polar * d <= 2 * polar * radius) by (nonlinear_arith)
                requires
                    d <= radius,
                    polar >= 0,
            ;
        }
    }
}

impl<T: Sync, M: Metric<T> + Sync> VecDataset<T, M> {
    /// One if the descent from the cluster comes to list the instance at
    /// position `x`, else zero.
    pub open spec fn covered(&self, c: &Cluster, query: &T, radius: u64, x: usize) -> nat {
        if c.covers(self, query, radius, x) {
            1
        } else {
            0
        }
    }

    /// From how many of the clusters `cs[from..]` the descent comes to list
    /// the instance at position `x`.
    pub open spec fn reach(
        &self,
        cs: Seq<&Cluster>,
        from: int,
        query: &T,
        radius: u64,
        x: usize,
    ) -> nat
        decreases cs.len() - from,
    {
        if from < 0 || from >= cs.len() {
            0
        } else {
            self.covered(cs[from], query, radius, x) + self.reach(cs, from + 1, query, radius, x)
        }
    }

    /// A cluster appended to a list is reached with it.
    pub proof fn lemma_reach_push(
        &self,
        cs: Seq<&Cluster>,
        c: &Cluster,
        from: int,
        query: &T,
        radius: u64,
        x: usize,
    )
        requires
            0 <= from <= cs.len(),
        ensures
            self.reach(cs.push(c), from, query, radius, x) == self.reach(
                cs,
                from,
                query,
                radius,
                x,
            ) + self.covered(c, query, radius, x),
        decreases cs.len() - from,
    {
        if from < cs.len() {
            self.lemma_reach_push(cs, c, from + 1, query, radius, x);
            assert(cs.push(c)[from] == cs[from]);
        } else {
            assert(self.reach(cs.push(c), from + 1, query, radius, x) == 0);
        }
    }

    /// The hits that a cluster inside the query ball gives: all of its
    /// instances, each with its distance from the query, for which the
    /// distance `d` of the center stands in where the radius is zero.
    pub open spec fn cluster_hits(&self, query: &T, c: &Cluster, d: u64) -> Seq<(usize, u64)> {
        Seq::new(
            c.members().len(),
            |k: int|
                (
                    c.members()[k],
                    if c.radius == 0 {
                        d
                    } else {
                        self.qdist(query, c.members()[k] as int)
                    },
                ),
        )
    }

    /// The hits that the first `upto` confirmed clusters give, one cluster
    /// after the other.
    pub open spec fn confirmed_hits(
        &self,
        query: &T,
        confirmed: Seq<(&Cluster, u64)>,
        upto: int,
    ) -> Seq<(usize, u64)>
        decreases upto,
    {
        if upto <= 0 {
            Seq::empty()
        } else {
            self.confirmed_hits(query, confirmed, upto - 1) + self.cluster_hits(
                query,
                confirmed[upto - 1].0,
                confirmed[upto - 1].1,
            )
        }
    }

    /// The instances of the first `upto` of the clusters, one cluster after
    /// the other.
    pub open spec fn gathered(clusters: Seq<(&Cluster, u64)>, upto: int) -> Seq<usize>
        decreases upto,
    {
        if upto <= 0 {
            Seq::empty()
        } else {
            Self::gathered(clusters, upto - 1) + clusters[upto - 1].0.members()
        }
    }

    /// What the search of the leaves reports: the hits of the confirmed
    /// clusters, then those instances of the straddlers that are within the
    /// radius.
    pub open spec fn leaf_hits(
        &self,
        query: &T,
        radius: u64,
        confirmed: Seq<(&Cluster, u64)>,
        straddlers: Seq<(&Cluster, u64)>,
    ) -> Seq<(usize, u64)> {
        self.confirmed_hits(query, confirmed, confirmed.len() as int) + self.linear_hits(
            query,
            radius,
            Self::gathered(straddlers, straddlers.len() as int),
        )
    }

    /// The listed clusters are sound, and each comes with the distance from
    /// the query to its center.
    pub open spec fn are_measured(&self, query: &T, clusters: Seq<(&Cluster, u64)>) -> bool {
        forall|k: int|
            0 <= k < clusters.len() ==> (#[trigger] clusters[k]).0.wf(self) && clusters[k].1
                == self.qdist(query, clusters[k].0.arg_center as int)
    }

    /// `confirmed` and `straddlers` are what the descent of the tree under
    /// `root` leaves for the search of the leaves.
    ///
    /// Every confirmed cluster has its ball inside the query ball. Every
    /// straddler is a leaf whose ball is neither inside the query ball nor
    /// apart from it. No instance is in two of the clusters, and none that
    /// is not under the root. If the metric keeps its promises to the query
    /// and the descent loses no hit to the poles, every instance under the
    /// root that is within the radius is in one of the clusters. In every
    /// case the instances in the clusters are those that the descent from
    /// the root comes to list, as [`Cluster::covers`] says.
    pub open spec fn is_sieved(
        &self,
        root: &Cluster,
        query: &T,
        radius: u64,
        confirmed: Seq<(&Cluster, u64)>,
        straddlers: Seq<(&Cluster, u64)>,
    ) -> bool {
        &&& self.are_measured(query, confirmed)
        &&& self.are_measured(query, straddlers)
        &&& forall|k: int|
            0 <= k < confirmed.len() ==> is_inside(
                (#[trigger] confirmed[k]).1,
                confirmed[k].0.radius,
                radius,
            )
        &&& forall|k: int|
            0 <= k < straddlers.len() ==> {
                &&& (#[trigger] straddlers[k]).0.children is None
                &&& !is_inside(straddlers[k].1, straddlers[k].0.radius, radius)
                &&& !is_apart(straddlers[k].1, straddlers[k].0.radius, radius)
            }
        &&& forall|x: usize| #[trigger]
            tally(clusters_of(confirmed), 0, x) + tally(clusters_of(straddlers), 0, x) <= holds(
                root,
                x,
            )
        &&& self.is_metric_for(query) && root.keeps_every_hit(self, query, radius) ==> forall|x: usize|
            root.members().contains(x) && self.qdist(query, x as int) <= radius ==> #[trigger] tally(
                clusters_of(confirmed),
                0,
                x,
            ) + tally(clusters_of(straddlers), 0, x) >= 1
        &&& forall|x: usize|
            tally(clusters_of(confirmed), 0, x) + tally(clusters_of(straddlers), 0, x)
                == #[trigger] self.covered(root, query, radius, x)
    }

    /// What the descent lists, it lists apart: no instance is in two of the
    /// confirmed clusters and straddlers, so none of them is listed twice,
    /// and none lies under another.
    pub proof fn lemma_listed_apart(
        &self,
        root: &Cluster,
        query: &T,
        radius: u64,
        confirmed: Seq<(&Cluster, u64)>,
        straddlers: Seq<(&Cluster, u64)>,
        x: usize,
    )
        requires
            self.is_sieved(root, query, radius, confirmed, straddlers),
        ensures
            forall|i: int, j: int|
                0 <= i < j < confirmed.len() ==> !((#[trigger] confirmed[i]).0.members().contains(x)
                    && (#[trigger] confirmed[j]).0.members().contains(x)),
            forall|i: int, j: int|
                0 <= i < j < straddlers.len() ==> !((#[trigger] straddlers[i]).0.members().contains(
                    x,
                ) && (#[trigger] straddlers[j]).0.members().contains(x)),
            forall|i: int, j: int|
                0 <= i < confirmed.len() && 0 <= j < straddlers.len() ==> !((
                #[trigger] confirmed[i]).0.members().contains(x) && (
                #[trigger] straddlers[j]).0.members().contains(x)),
            forall|i: int|
                0 <= i < confirmed.len() && (#[trigger] confirmed[i]).0.members().contains(x)
                    ==> root.members().contains(x),
            forall|i: int|
                0 <= i < straddlers.len() && (#[trigger] straddlers[i]).0.members().contains(x)
                    ==> root.members().contains(x),
    {
        let cs = clusters_of(confirmed);
        let ss = clusters_of(straddlers);
        assert(tally(cs, 0, x) + tally(ss, 0, x) <= holds(root, x));
        assert forall|i: int, j: int| 0 <= i < j < confirmed.len() implies !((
        #[trigger] confirmed[i]).0.members().contains(x) && (
        #[trigger] confirmed[j]).0.members().contains(x)) by {
            if cs[i].members().contains(x) && cs[j].members().contains(x) {
                lemma_tally_at_least(cs, 0, i, j, x);
            }
        }
        assert forall|i: int, j: int| 0 <= i < j < straddlers.len() implies !((
        #[trigger] straddlers[i]).0.members().contains(x) && (
        #[trigger] straddlers[j]).0.members().contains(x)) by {
            if ss[i].members().contains(x) && ss[j].members().contains(x) {
                lemma_tally_at_least(ss, 0, i, j, x);
            }
        }
        assert forall|i: int, j: int|
            0 <= i < confirmed.len() && 0 <= j < straddlers.len() implies !((
        #[trigger] confirmed[i]).0.members().contains(x) && (
        #[trigger] straddlers[j]).0.members().contains(x)) by {
            if cs[i].members().contains(x) && ss[j].members().contains(x) {
                lemma_tally_at_least(cs, 0, i, i, x);
                lemma_tally_at_least(ss, 0, j, j, x);
            }
        }
        assert forall|i: int|
            0 <= i < confirmed.len() && (#[trigger] confirmed[i]).0.members().contains(
                x,
            ) implies root.members().contains(x) by {
            assert(cs[i].members().contains(x));
            lemma_tally_at_least(cs, 0, i, i, x);
        }
        assert forall|i: int|
            0 <= i < straddlers.len() && (#[trigger] straddlers[i]).0.members().contains(
                x,
            ) implies root.members().contains(x) by {
            assert(ss[i].members().contains(x));
            lemma_tally_at_least(ss, 0, i, i, x);
        }
    }

    /// The instances of listed clusters are counted as the clusters that
    /// hold them are.
    pub proof fn lemma_gathered(&self, query: &T, clusters: Seq<(&Cluster, u64)>, upto: int, x: usize)
        requires
            self.are_measured(query, clusters),
            0 <= upto <= clusters.len(),
        ensures
            count_of(Self::gathered(clusters, upto), x) == tally(
                clusters_of(clusters).take(upto),
                0,
                x,
            ),
            all_below(Self::gathered(clusters, upto), self.len()),
        decreases upto,
    {
        if upto > 0 {
            self.lemma_gathered(query, clusters, upto - 1, x);
            let c = clusters[upto - 1].0;
            assert(c.wf(self));
            lemma_count_concat(Self::gathered(clusters, upto - 1), c.members(), x);
            lemma_count_no_duplicates(c.members(), x);
            lemma_tally_take(clusters_of(clusters), upto - 1, x);
        }
    }

    /// The hits of confirmed clusters are counted as the clusters that hold
    /// them are, and carry true distances within the radius if the metric
    /// keeps its promises to the query.
    pub proof fn lemma_confirmed_hits(
        &self,
        query: &T,
        radius: u64,
        confirmed: Seq<(&Cluster, u64)>,
        upto: int,
    )
        requires
            self.are_measured(query, confirmed),
            forall|k: int|
                0 <= k < confirmed.len() ==> is_inside(
                    (#[trigger] confirmed[k]).1,
                    confirmed[k].0.radius,
                    radius,
                ),
            0 <= upto <= confirmed.len(),
        ensures
            forall|x: usize| #[trigger]
                count_of(indices_of(self.confirmed_hits(query, confirmed, upto)), x) == tally(
                    clusters_of(confirmed).take(upto),
                    0,
                    x,
                ),
            self.is_metric_for(query) ==> forall|k: int|
                0 <= k < self.confirmed_hits(query, confirmed, upto).len() ==> {
                    let h = #[trigger] self.confirmed_hits(query, confirmed, upto)[k];
                    h.1 == self.qdist(query, h.0 as int) && h.1 <= radius
                },
        decreases upto,
    {
        if upto > 0 {
            self.lemma_confirmed_hits(query, radius, confirmed, upto - 1);
            let before = self.confirmed_hits(query, confirmed, upto - 1);
            let (c, d) = confirmed[upto - 1];
            let added = self.cluster_hits(query, c, d);
            assert(c.wf(self));
            assert(indices_of(added) =~= c.members());
            lemma_indices_concat(before, added);
            assert forall|x: usize| #[trigger]
                count_of(indices_of(self.confirmed_hits(query, confirmed, upto)), x) == tally(
                    clusters_of(confirmed).take(upto),
                    0,
                    x,
                ) by {
                lemma_count_concat(indices_of(before), c.members(), x);
                lemma_count_no_duplicates(c.members(), x);
                lemma_tally_take(clusters_of(confirmed), upto - 1, x);
            }
            if self.is_metric_for(query) {
                assert forall|k: int|
                    0 <= k < self.confirmed_hits(query, confirmed, upto).len() implies ({
                    let h = #[trigger] self.confirmed_hits(query, confirmed, upto)[k];
                    h.1 == self.qdist(query, h.0 as int) && h.1 <= radius
                }) by {
                    if k >= before.len() {
                        let j = k - before.len();
                        let x = c.members()[j];
                        assert(c.members().contains(x));
                        c.lemma_inside(self, query, radius, x);
                        if c.radius == 0 {
                            c.lemma_singleton(self, query, x);
                        }
                    } else {
                        assert(before[k] == self.confirmed_hits(query, confirmed, upto)[k]);
                    }
                }
            }
        } else {
            assert(indices_of(self.confirmed_hits(query, confirmed, upto)) =~= Seq::empty());
        }
    }

    /// What the search of the leaves reports answers the range query over
    /// the instances under the root.
    pub proof fn lemma_leaf_hits(
        &self,
        root: &Cluster,
        query: &T,
        radius: u64,
        confirmed: Seq<(&Cluster, u64)>,
        straddlers: Seq<(&Cluster, u64)>,
    )
        requires
            self.is_sieved(root, query, radius, confirmed, straddlers),
        ensures
            self.is_range_result(
                root.members(),
                query,
                radius,
                self.leaf_hits(query, radius, confirmed, straddlers),
            ),
            self.is_metric_for(query) && root.keeps_every_hit(self, query, radius)
                ==> self.is_complete_for(
                root.members(),
                query,
                radius,
                self.leaf_hits(query, radius, confirmed, straddlers),
            ),
            forall|x: usize| #[trigger]
                count_of(indices_of(self.leaf_hits(query, radius, confirmed, straddlers)), x)
                    == tally(clusters_of(confirmed), 0, x) + if self.qdist(query, x as int)
                    <= radius {
                    tally(clusters_of(straddlers), 0, x)
                } else {
                    0
                },
    {
        let first = self.confirmed_hits(query, confirmed, confirmed.len() as int);
        let pool = Self::gathered(straddlers, straddlers.len() as int);
        let second = self.linear_hits(query, radius, pool);
        let hits = self.leaf_hits(query, radius, confirmed, straddlers);
        self.lemma_confirmed_hits(query, radius, confirmed, confirmed.len() as int);
        self.lemma_linear_hits(query, radius, pool);
        lemma_indices_concat(first, second);
        assert(clusters_of(confirmed).take(confirmed.len() as int) =~= clusters_of(confirmed));
        assert(clusters_of(straddlers).take(straddlers.len() as int) =~= clusters_of(straddlers));
        assert forall|x: usize|
            count_of(indices_of(hits), x) == tally(clusters_of(confirmed), 0, x) + if self.qdist(
                query,
                x as int,
            ) <= radius {
                tally(clusters_of(straddlers), 0, x)
            } else {
                0
            } by {
            lemma_count_concat(indices_of(first), indices_of(second), x);
            self.lemma_gathered(query, straddlers, straddlers.len() as int, x);
            assert(count_of(indices_of(first), x) == tally(
                clusters_of(confirmed).take(confirmed.len() as int),
                0,
                x,
            ));
            assert(count_of(indices_of(second), x) == if self.qdist(query, x as int) <= radius {
                count_of(pool, x)
            } else {
                0
            });
        }
        assert forall|x: usize| count_of(indices_of(hits), x) <= 1 by {
            assert(tally(clusters_of(confirmed), 0, x) + tally(clusters_of(straddlers), 0, x)
                <= holds(root, x));
        }
        lemma_counts_give_no_duplicates(indices_of(hits));
        assert forall|k: int| 0 <= k < hits.len() implies root.members().contains(
            (#[trigger] hits[k]).0,
        ) by {
            let x = hits[k].0;
            assert(indices_of(hits)[k] == x);
            lemma_count_contains(indices_of(hits), x);
            assert(tally(clusters_of(confirmed), 0, x) + tally(clusters_of(straddlers), 0, x)
                <= holds(root, x));
        }
        if self.is_metric_for(query) {
            assert forall|k: int| 0 <= k < hits.len() implies (#[trigger] hits[k]).1 == self.qdist(
                query,
                hits[k].0 as int,
            ) && hits[k].1 <= radius by {
                if k < first.len() {
                    assert(hits[k] == first[k]);
                } else {
                    assert(hits[k] == second[k - first.len()]);
                }
            }
            if root.keeps_every_hit(self, query, radius) {
                assert forall|x: usize|
                    root.members().contains(x) && self.qdist(query, x as int)
                        <= radius implies #[trigger] indices_of(hits).contains(x) by {
                    assert(tally(clusters_of(confirmed), 0, x) + tally(
                        clusters_of(straddlers),
                        0,
                        x,
                    ) >= 1);
                    lemma_count_contains(indices_of(hits), x);
                }
            }
        }
    }
}

/// Descends the tree under `root`, breadth first, and sorts its clusters by
/// how their balls lie to the query ball.
///
/// A cluster whose ball lies apart from the query ball is dropped. One whose
/// ball lies inside it is confirmed. Of the others, a leaf is a straddler,
/// and a parent is replaced by those of its children that its poles do not
/// rule out. The result is the confirmed clusters and the straddlers, each
/// with the distance from the query to its center.
pub fn tree_search<'a, T: Sync, M: Metric<T> + Sync>(
    data: &VecDataset<T, M>,
    root: &'a Cluster,
    query: &T,
    radius: u64,
) -> (res: (Vec<(&'a Cluster, u64)>, Vec<(&'a Cluster, u64)>))
    requires
        data.wf(),
        root.wf(data),
    ensures
        data.is_sieved(root, query, radius, res.0@, res.1@),
{
    let mut confirmed: Vec<(&'a Cluster, u64)> = Vec::new();
    let mut straddlers: Vec<(&'a Cluster, u64)> = Vec::new();
    let mut candidates: Vec<&'a Cluster> = Vec::new();
    candidates.push(root);
    let mut head: usize = 0;
    proof {
        assert(clusters_of(confirmed@) =~= Seq::empty());
        assert(clusters_of(straddlers@) =~= Seq::empty());
        assert forall|x: usize|
            tally(clusters_of(confirmed@), 0, x) + tally(clusters_of(straddlers@), 0, x) + tally(
                candidates@,
                0,
                x,
            ) == holds(root, x) by {
            assert(tally(candidates@, 1, x) == 0);
        }
        assert forall|x: usize|
            tally(clusters_of(confirmed@), 0, x) + tally(clusters_of(straddlers@), 0, x)
                + #[trigger] data.reach(candidates@, 0, query, radius, x) == data.covered(
                root,
                query,
                radius,
                x,
            ) by {
            assert(data.reach(candidates@, 1, query, radius, x) == 0);
        }
    }
    while head < candidates.len()
        invariant
            data.wf(),
            head <= candidates@.len(),
            forall|k: int| head <= k < candidates@.len() ==> (#[trigger] candidates@[k]).wf(data),
            root.keeps_every_hit(data, query, radius) ==> forall|k: int|
                head <= k < candidates@.len() ==> (#[trigger] candidates@[k]).keeps_every_hit(
                    data,
                    query,
                    radius,
                ),
            data.are_measured(query, confirmed@),
            data.are_measured(query, straddlers@),
            forall|k: int|
                0 <= k < confirmed@.len() ==> is_inside(
                    (#[trigger] confirmed@[k]).1,
                    confirmed@[k].0.radius,
                    radius,
                ),
            forall|k: int|
                0 <= k < straddlers@.len() ==> {
                    &&& (#[trigger] straddlers@[k]).0.children is None
                    &&& !is_inside(straddlers@[k].1, straddlers@[k].0.radius, radius)
                    &&& !is_apart(straddlers@[k].1, straddlers@[k].0.radius, radius)
                },
            forall|x: usize|
                tally(clusters_of(confirmed@), 0, x) + tally(clusters_of(straddlers@), 0, x)
                    + #[trigger] tally(candidates@, head as int, x) <= holds(root, x),
            data.is_metric_for(query) && root.keeps_every_hit(data, query, radius) ==> forall|x: usize|
                root.members().contains(x) && data.qdist(query, x as int) <= radius ==> tally(
                    clusters_of(confirmed@),
                    0,
                    x,
                ) + tally(clusters_of(straddlers@), 0, x) + #[trigger] tally(
                    candidates@,
                    head as int,
                    x,
                ) >= 1,
            forall|x: usize|
                tally(clusters_of(confirmed@), 0, x) + tally(clusters_of(straddlers@), 0, x)
                    + #[trigger] data.reach(candidates@, head as int, query, radius, x)
                    == data.covered(root, query, radius, x),
        decreases weight(candidates@, head as int),
    {
        let c = candidates[head];
        let ghost before = candidates@;
        let ghost old_confirmed = confirmed@;
        let ghost old_straddlers = straddlers@;
        proof {
            assert(c.wf(data));
            c.lemma_center_in_range(data);
        }
        let d = c.distance_to_instance(data, query);
        if apart(d, c.radius, radius) {
            proof {
                if data.is_metric_for(query) && root.keeps_every_hit(data, query, radius) {
                    assert forall|x: usize|
                        root.members().contains(x) && data.qdist(query, x as int)
                            <= radius implies tally(clusters_of(confirmed@), 0, x) + tally(
                        clusters_of(straddlers@),
                        0,
                        x,
                    ) + #[trigger] tally(candidates@, head as int + 1, x) >= 1 by {
                        assert(tally(before, head as int, x) == holds(c, x) + tally(
                            before,
                            head as int + 1,
                            x,
                        ));
                        if c.members().contains(x) {
                            c.lemma_apart(data, query, radius, x);
                        }
                    }
                }
                assert forall|x: usize|
                    tally(clusters_of(confirmed@), 0, x) + tally(clusters_of(straddlers@), 0, x)
                        + #[trigger] tally(candidates@, head as int + 1, x) <= holds(root, x) by {
                    assert(tally(before, head as int, x) == holds(c, x) + tally(
                        before,
                        head as int + 1,
                        x,
                    ));
                }
                assert forall|x: usize|
                    tally(clusters_of(confirmed@), 0, x) + tally(clusters_of(straddlers@), 0, x)
                    + #[trigger] data.reach(candidates@, head as int + 1, query, radius, x)
                    == data.covered(root, query, radius, x) by {
                    assert(data.reach(before, head as int, query, radius, x) == data.covered(
                        c,
                        query,
                        radius,
                        x,
                    ) + data.reach(before, head as int + 1, query, radius, x));
                }
            }
        } else if inside(d, c.radius, radius) {
            confirmed.push((c, d));
            proof {
                lemma_clusters_push(old_confirmed, (c, d));
                assert forall|x: usize|
                    tally(clusters_of(confirmed@), 0, x) + tally(clusters_of(straddlers@), 0, x)
                        + #[trigger] tally(candidates@, head as int + 1, x) == tally(
                        clusters_of(old_confirmed),
                        0,
                        x,
                    ) + tally(clusters_of(straddlers@), 0, x) + tally(before, head as int, x) by {
                    lemma_tally_push(clusters_of(old_confirmed), c, 0, x);
                    assert(tally(before, head as int, x) == holds(c, x) + tally(
                        before,
                        head as int + 1,
                        x,
                    ));
                }
                assert forall|x: usize|
                    tally(clusters_of(confirmed@), 0, x) + tally(clusters_of(straddlers@), 0, x)
                    + #[trigger] data.reach(candidates@, head as int + 1, query, radius, x)
                    == data.covered(root, query, radius, x) by {
                    lemma_tally_push(clusters_of(old_confirmed), c, 0, x);
                    assert(data.reach(before, head as int, query, radius, x) == data.covered(
                        c,
                        query,
                        radius,
                        x,
                    ) + data.reach(before, head as int + 1, query, radius, x));
                }
            }
        } else if c.is_leaf() {
            straddlers.push((c, d));
            proof {
                lemma_clusters_push(old_straddlers, (c, d));
                assert forall|x: usize|
                    tally(clusters_of(confirmed@), 0, x) + tally(clusters_of(straddlers@), 0, x)
                        + #[trigger] tally(candidates@, head as int + 1, x) == tally(
                        clusters_of(confirmed@),
                        0,
                        x,
                    ) + tally(clusters_of(old_straddlers), 0, x) + tally(before, head as int, x) by {
                    lemma_tally_push(clusters_of(old_straddlers), c, 0, x);
                    assert(tally(before, head as int, x) == holds(c, x) + tally(
                        before,
                        head as int + 1,
                        x,
                    ));
                }
                assert forall|x: usize|
                    tally(clusters_of(confirmed@), 0, x) + tally(clusters_of(straddlers@), 0, x)
                    + #[trigger] data.reach(candidates@, head as int + 1, query, radius, x)
                    == data.covered(root, query, radius, x) by {
                    lemma_tally_push(clusters_of(old_straddlers), c, 0, x);
                    assert(data.reach(before, head as int, query, radius, x) == data.covered(
                        c,
                        query,
                        radius,
                        x,
                    ) + data.reach(before, head as int + 1, query, radius, x));
                }
            }
        } else {
            let kept = c.overlapping_children(data, query, radius);
            let ghost kids = c.children->Some_0;
            proof {
                assert(c.split_ok(&*kids, data));
                assert(kids.left.wf(data) && kids.right.wf(data));
            }
            let mut j: usize = 0;
            while j < kept.len()
                invariant
                    j <= kept@.len(),
                    candidates@ == before + kept@.take(j as int),
                decreases kept@.len() - j,
            {
                candidates.push(kept[j]);
                proof {
                    assert(kept@.take(j as int + 1) =~= kept@.take(j as int).push(kept@[j as int]));
                    assert(before + kept@.take(j as int + 1) =~= (before + kept@.take(
                        j as int,
                    )).push(kept@[j as int]));
                }
                j += 1;
            }
            proof {
                assert(kept@.take(j as int) =~= kept@);
                assert(weight(before, head as int) == c.size() + weight(before, head as int + 1));
                assert(c.size() == 1 + kids.left.size() + kids.right.size());
                if kept@.len() == 2 {
                    assert(candidates@ =~= before.push(kept@[0]).push(kept@[1]));
                    lemma_weight_push(before, kept@[0], head as int + 1);
                    lemma_weight_push(before.push(kept@[0]), kept@[1], head as int + 1);
                } else {
                    assert(candidates@ =~= before.push(kept@[0]));
                    lemma_weight_push(before, kept@[0], head as int + 1);
                }
                assert forall|k: int| head + 1 <= k < candidates@.len() implies (
                #[trigger] candidates@[k]).wf(data) by {
                    if k < before.len() {
                        assert(candidates@[k] == before[k]);
                    }
                }
                if root.keeps_every_hit(data, query, radius) {
                    c.lemma_kept_keep(data, query, radius);
                    assert forall|k: int| head + 1 <= k < candidates@.len() implies (
                    #[trigger] candidates@[k]).keeps_every_hit(data, query, radius) by {
                        if k < before.len() {
                            assert(candidates@[k] == before[k]);
                        } else {
                            assert(candidates@[k] == kept@[k - before.len()]);
                        }
                    }
                }
                assert forall|x: usize|
                    #[trigger] tally(candidates@, head as int + 1, x) <= tally(
                        before,
                        head as int,
                        x,
                    ) && (data.is_metric_for(query) && root.keeps_every_hit(data, query, radius)
                        && root.members().contains(x) && data.qdist(query, x as int) <= radius
                        ==> tally(candidates@, head as int + 1, x) >= tally(
                        before,
                        head as int,
                        x,
                    )) by {
                    assert(tally(before, head as int, x) == holds(c, x) + tally(
                        before,
                        head as int + 1,
                        x,
                    ));
                    c.lemma_children_share(data, x);
                    if kept@.len() == 2 {
                        lemma_tally_push(before, kept@[0], head as int + 1, x);
                        lemma_tally_push(before.push(kept@[0]), kept@[1], head as int + 1, x);
                    } else {
                        lemma_tally_push(before, kept@[0], head as int + 1, x);
                        if data.is_metric_for(query) && root.keeps_every_hit(data, query, radius)
                            && c.members().contains(x) && data.qdist(query, x as int) <= radius {
                            c.lemma_kept(data, query, radius, x);
                        }
                    }
                }
                assert forall|x: usize|
                    tally(clusters_of(confirmed@), 0, x) + tally(clusters_of(straddlers@), 0, x)
                    + #[trigger] data.reach(candidates@, head as int + 1, query, radius, x)
                    == data.covered(root, query, radius, x) by {
                    assert(data.reach(before, head as int, query, radius, x) == data.covered(
                        c,
                        query,
                        radius,
                        x,
                    ) + data.reach(before, head as int + 1, query, radius, x));
                    c.lemma_covers_split(data, query, radius, x);
                    if kept@.len() == 2 {
                        data.lemma_reach_push(before, kept@[0], head as int + 1, query, radius, x);
                        data.lemma_reach_push(
                            before.push(kept@[0]),
                            kept@[1],
                            head as int + 1,
                            query,
                            radius,
                            x,
                        );
                    } else {
                        data.lemma_reach_push(before, kept@[0], head as int + 1, query, radius, x);
                    }
                }
            }
        }
        head += 1;
    }
    proof {
        assert forall|x: usize| #[trigger]
            tally(clusters_of(confirmed@), 0, x) + tally(clusters_of(straddlers@), 0, x) <= holds(
                root,
                x,
            ) by {
            assert(tally(candidates@, head as int, x) == 0);
        }
        assert forall|x: usize|
            tally(clusters_of(confirmed@), 0, x) + tally(clusters_of(straddlers@), 0, x)
                == #[trigger] data.covered(root, query, radius, x) by {
            assert(data.reach(candidates@, head as int, query, radius, x) == 0);
        }
        if data.is_metric_for(query) && root.keeps_every_hit(data, query, radius) {
            assert forall|x: usize|
                root.members().contains(x) && data.qdist(query, x as int)
                    <= radius implies #[trigger] tally(clusters_of(confirmed@), 0, x) + tally(
                clusters_of(straddlers@),
                0,
                x,
            ) >= 1 by {
                assert(tally(candidates@, head as int, x) == 0);
            }
        }
    }
    (confirmed, straddlers)
}

/// Reports the instances of the confirmed clusters, and those instances of
/// the straddlers that are within the radius.
///
/// The instances of a confirmed cluster are hits without a test. Where its
/// radius is zero they all take the distance of its center; else their
/// distances are measured. The instances of the straddlers are gathered and
/// searched linearly.
pub fn leaf_search<T: Sync, M: Metric<T> + Sync>(
    data: &VecDataset<T, M>,
    confirmed: Vec<(&Cluster, u64)>,
    straddlers: Vec<(&Cluster, u64)>,
    query: &T,
    radius: u64,
) -> (hits: Vec<(usize, u64)>)
    requires
        data.wf(),
        data.are_measured(query, confirmed@),
        data.are_measured(query, straddlers@),
    ensures
        hits@ == data.leaf_hits(query, radius, confirmed@, straddlers@),
{
    let mut hits: Vec<(usize, u64)> = Vec::new();
    let mut k: usize = 0;
    while k < confirmed.len()
        invariant
            data.wf(),
            data.are_measured(query, confirmed@),
            k <= confirmed@.len(),
            hits@ == data.confirmed_hits(query, confirmed@, k as int),
        decreases confirmed@.len() - k,
    {
        let (c, d) = confirmed[k];
        proof {
            assert(confirmed@[k as int].0.wf(data));
            c.lemma_wf_shape(data);
        }
        let members = c.indices();
        let ghost before = hits@;
        if c.is_singleton() {
            let mut j: usize = 0;
            while j < members.len()
                invariant
                    j <= members@.len(),
                    members@ == c.members(),
                    c.radius == 0,
                    hits@ == before + data.cluster_hits(query, c, d).take(j as int),
                decreases members@.len() - j,
            {
                hits.push((members[j], d));
                proof {
                    let added = data.cluster_hits(query, c, d);
                    assert(added.take(j as int + 1) =~= added.take(j as int).push(added[j as int]));
                    assert(before + added.take(j as int + 1) =~= (before + added.take(
                        j as int,
                    )).push(added[j as int]));
                }
                j += 1;
            }
            proof {
                let added = data.cluster_hits(query, c, d);
                assert(added.take(j as int) =~= added);
            }
        } else {
            let distances = data.query_to_many(query, members.as_slice());
            let mut j: usize = 0;
            while j < members.len()
                invariant
                    j <= members@.len(),
                    members@ == c.members(),
                    c.radius != 0,
                    distances@ == data.query_distances(query, members@),
                    hits@ == before + data.cluster_hits(query, c, d).take(j as int),
                decreases members@.len() - j,
            {
                hits.push((members[j], distances[j]));
                proof {
                    let added = data.cluster_hits(query, c, d);
                    assert(added.take(j as int + 1) =~= added.take(j as int).push(added[j as int]));
                    assert(before + added.take(j as int + 1) =~= (before + added.take(
                        j as int,
                    )).push(added[j as int]));
                }
                j += 1;
            }
            proof {
                let added = data.cluster_hits(query, c, d);
                assert(added.take(j as int) =~= added);
            }
        }
        k += 1;
    }
    let mut pool: Vec<usize> = Vec::new();
    k = 0;
    while k < straddlers.len()
        invariant
            data.wf(),
            data.are_measured(query, straddlers@),
            k <= straddlers@.len(),
            pool@ == VecDataset::<T, M>::gathered(straddlers@, k as int),
            all_below(pool@, data.len()),
        decreases straddlers@.len() - k,
    {
        let (c, _) = straddlers[k];
        proof {
            assert(straddlers@[k as int].0.wf(data));
            c.lemma_wf_shape(data);
        }
        let mut members = c.indices();
        pool.append(&mut members);
        k += 1;
    }
    let mut rest = data.linear_search(query, radius, pool.as_slice());
    hits.append(&mut rest);
    hits
}

impl Cluster {
    /// Whether no instance of the cluster is within the radius of the query:
    /// measures the distance to every one of them.
    pub fn has_no_hit<T: Sync, M: Metric<T> + Sync>(
        &self,
        data: &VecDataset<T, M>,
        query: &T,
        radius: u64,
    ) -> (ok: bool)
        requires
            data.wf(),
            self.wf(data),
        ensures
            ok == self.holds_no_hit(data, query, radius),
    {
        proof {
            self.lemma_wf_shape(data);
        }
        let members = self.indices();
        let distances = data.query_to_many(query, members.as_slice());
        let mut j: usize = 0;
        while j < members.len()
            invariant
                j <= members@.len(),
                members@ == self.members(),
                distances@ == data.query_distances(query, members@),
                forall|i: int| 0 <= i < j ==> data.qdist(query, #[trigger] members@[i] as int) > radius,
            decreases members@.len() - j,
        {
            if distances[j] <= radius {
                proof {
                    assert(self.members().contains(members@[j as int]));
                }
                return false;
            }
            j += 1;
        }
        proof {
            assert forall|x: usize| #[trigger] self.members().contains(x) implies data.qdist(
                query,
                x as int,
            ) > radius by {
                let i = choose|i: int| 0 <= i < members@.len() && members@[i] == x;
            }
        }
        true
    }

    /// Whether the descent from this cluster loses no hit to the poles, for
    /// the given query and radius: follows the descent, and searches every
    /// child that the poles rule out.
    pub fn loses_no_hit<T: Sync, M: Metric<T> + Sync>(
        &self,
        data: &VecDataset<T, M>,
        query: &T,
        radius: u64,
    ) -> (ok: bool)
        requires
            data.wf(),
            self.wf(data),
        ensures
            ok == self.keeps_every_hit(data, query, radius),
        decreases self,
    {
        proof {
            self.lemma_center_in_range(data);
        }
        let d = self.distance_to_instance(data, query);
        if apart(d, self.radius, radius) || inside(d, self.radius, radius) {
            return true;
        }
        match &self.children {
            None => true,
            Some(c) => {
                proof {
                    self.lemma_sides(data, 0);
                    assert(c.left.wf(data) && c.right.wf(data));
                }
                let to_left = data.query_to_one(query, c.left_pole);
                let to_right = data.query_to_one(query, c.right_pole);
                let keeps_left = to_left < to_right || across(
                    to_right,
                    to_left,
                    c.polar_distance,
                    radius,
                );
                let keeps_right = !(to_left < to_right) || across(
                    to_left,
                    to_right,
                    c.polar_distance,
                    radius,
                );
                let left = if keeps_left {
                    c.left.loses_no_hit(data, query, radius)
                } else {
                    c.left.has_no_hit(data, query, radius)
                };
                let right = if keeps_right {
                    c.right.loses_no_hit(data, query, radius)
                } else {
                    c.right.has_no_hit(data, query, radius)
                };
                left && right
            },
        }
    }
}

impl<T: Sync, M: Metric<T> + Sync> Tree<T, M> {
    /// `hits` is what a descent of the tree reports for the ball of the
    /// given radius round the query: it answers the range query with nothing
    /// wrong in it, and it leaves out nothing if the metric keeps its
    /// promises to the query and the descent loses no hit to the poles.
    pub open spec fn is_ball(&self, query: &T, radius: u64, hits: Seq<(usize, u64)>) -> bool {
        &&& self.data.is_range_result(self.root.members(), query, radius, hits)
        &&& self.data.is_metric_for(query) && self.root.keeps_every_hit(&self.data, query, radius)
            ==> self.data.is_complete_for(self.root.members(), query, radius, hits)
    }

    /// `hits` is what the clustered search reports: the hits of the leaves
    /// for some lists of confirmed clusters and straddlers that the descent
    /// of the tree leaves.
    pub open spec fn is_descent_answer(
        &self,
        query: &T,
        radius: u64,
        hits: Seq<(usize, u64)>,
    ) -> bool {
        exists|confirmed: Seq<(&Cluster, u64)>, straddlers: Seq<(&Cluster, u64)>| #[trigger]
            self.data.is_sieved(&self.root, query, radius, confirmed, straddlers) && hits
                == self.data.leaf_hits(query, radius, confirmed, straddlers)
    }

    /// The clustered search reports the instances within the radius that the
    /// descent comes to list, and no others, if the metric keeps its
    /// promises to the query.
    pub proof fn lemma_descent_answer(&self, query: &T, radius: u64, hits: Seq<(usize, u64)>)
        requires
            self.is_descent_answer(query, radius, hits),
            self.data.is_metric_for(query),
        ensures
            forall|x: usize| #[trigger]
                indices_of(hits).contains(x) <==> self.root.covers(&self.data, query, radius, x)
                    && self.data.qdist(query, x as int) <= radius,
    {
        let data = &self.data;
        let (confirmed, straddlers) = choose|
            confirmed: Seq<(&Cluster, u64)>,
            straddlers: Seq<(&Cluster, u64)>,
        | #[trigger]
            data.is_sieved(&self.root, query, radius, confirmed, straddlers) && hits
                == data.leaf_hits(query, radius, confirmed, straddlers);
        data.lemma_leaf_hits(&self.root, query, radius, confirmed, straddlers);
        assert forall|x: usize| #[trigger]
            indices_of(hits).contains(x) <==> self.root.covers(data, query, radius, x)
                && data.qdist(query, x as int) <= radius by {
            lemma_count_contains(indices_of(hits), x);
            assert(tally(clusters_of(confirmed), 0, x) + tally(clusters_of(straddlers), 0, x)
                == data.covered(&self.root, query, radius, x));
            assert(count_of(indices_of(hits), x) == tally(clusters_of(confirmed), 0, x)
                + if data.qdist(query, x as int) <= radius {
                tally(clusters_of(straddlers), 0, x)
            } else {
                0
            });
            if tally(clusters_of(confirmed), 0, x) >= 1 {
                let i = crate::counting::lemma_tally_witness(clusters_of(confirmed), 0, x);
                assert(confirmed[i].0.wf(data));
                assert(is_inside(confirmed[i].1, confirmed[i].0.radius, radius));
                confirmed[i].0.lemma_inside(data, query, radius, x);
            }
        }
    }

    /// The descent loses no hit to the poles exactly where the clustered
    /// search leaves out nothing, if the metric keeps its promises to the
    /// query: no other input is left out by asking that of the descent.
    pub proof fn lemma_complete_means_keeps(&self, query: &T, radius: u64, hits: Seq<(usize, u64)>)
        requires
            self.wf(),
            self.root.built,
            self.is_descent_answer(query, radius, hits),
            self.data.is_metric_for(query),
        ensures
            self.data.is_complete_for(self.root.members(), query, radius, hits)
                <==> self.root.keeps_every_hit(&self.data, query, radius),
    {
        let data = &self.data;
        self.lemma_descent_answer(query, radius, hits);
        if data.is_complete_for(self.root.members(), query, radius, hits) {
            assert forall|x: usize|
                self.root.members().contains(x) && data.qdist(query, x as int)
                    <= radius implies #[trigger] self.root.covers(data, query, radius, x) by {
                assert(indices_of(hits).contains(x));
            }
            self.root.lemma_covers_means_keeps(data, query, radius);
        }
        if self.root.keeps_every_hit(data, query, radius) {
            assert forall|x: usize|
                self.root.members().contains(x) && data.qdist(query, x as int)
                    <= radius implies #[trigger] indices_of(hits).contains(x) by {
                self.root.lemma_keeps_means_covers(data, query, radius, x);
            }
        }
    }

    /// What a descent of the tree reports is what a linear search reports,
    /// if the metric keeps its promises to the query and the descent loses
    /// no hit to the poles.
    pub proof fn lemma_ball_is_linear(&self, query: &T, radius: u64, hits: Seq<(usize, u64)>)
        requires
            self.wf(),
            self.is_ball(query, radius, hits),
            self.data.is_metric_for(query),
            self.root.keeps_every_hit(&self.data, query, radius),
        ensures
            hits.to_set() == self.data.linear_hits(query, radius, self.root.members()).to_set(),
            indices_of(hits).to_set() == indices_of(
                self.data.linear_hits(query, radius, self.root.members()),
            ).to_set(),
            hits.len() == self.data.linear_hits(query, radius, self.root.members()).len(),
    {
        self.data.lemma_agrees_with_linear(self.root.members(), query, radius, hits);
    }

    /// In a flat space what a descent of the tree reports is what a linear
    /// search reports, if the metric keeps its promises to the query.
    pub proof fn lemma_flat_ball_is_linear(&self, query: &T, radius: u64, hits: Seq<(usize, u64)>)
        requires
            self.wf(),
            self.root.built,
            self.is_ball(query, radius, hits),
            self.data.is_metric_for(query),
            self.data.is_flat_for(query),
        ensures
            hits.to_set() == self.data.linear_hits(query, radius, self.root.members()).to_set(),
            indices_of(hits).to_set() == indices_of(
                self.data.linear_hits(query, radius, self.root.members()),
            ).to_set(),
            hits.len() == self.data.linear_hits(query, radius, self.root.members()).len(),
    {
        self.root.lemma_flat_keeps_every_hit(&self.data, query, radius);
        self.lemma_ball_is_linear(query, radius, hits);
    }

    /// With radius zero a descent of the tree reports the instances at
    /// distance zero from the query, and no others, each with distance zero,
    /// if the query and the instances are points of one metric space.
    pub proof fn lemma_ball_of_radius_zero(&self, query: &T, hits: Seq<(usize, u64)>)
        requires
            self.wf(),
            self.root.built,
            self.is_ball(query, 0, hits),
            self.data.is_true_distance_for(query),
        ensures
            forall|x: usize|
                self.root.members().contains(x) ==> (#[trigger] indices_of(hits).contains(x)
                    <==> self.data.qdist(query, x as int) == 0),
            forall|k: int| 0 <= k < hits.len() ==> (#[trigger] hits[k]).1 == 0,
            hits.to_set() == self.data.linear_hits(query, 0, self.root.members()).to_set(),
    {
        self.root.lemma_radius_zero_keeps_every_hit(&self.data, query);
        self.data.lemma_radius_zero(self.root.members(), query, hits);
        self.lemma_ball_is_linear(query, 0, hits);
    }
}

/// Finds the instances within `radius` of the query by descent of the tree:
/// first [`tree_search`], then [`leaf_search`].
pub fn search<T: Sync, M: Metric<T> + Sync>(tree: &Tree<T, M>, query: &T, radius: u64) -> (hits:
    Vec<(usize, u64)>)
    requires
        tree.wf(),
        tree.root.built,
    ensures
        tree.is_ball(query, radius, hits@),
        tree.is_descent_answer(query, radius, hits@),
{
    let (confirmed, straddlers) = tree_search(&tree.data, &tree.root, query, radius);
    proof {
        tree.data.lemma_leaf_hits(&tree.root, query, radius, confirmed@, straddlers@);
    }
    leaf_search(&tree.data, confirmed, straddlers, query, radius)
}

impl Algorithm {
    /// Finds the instances of the tree that are within `radius` of the
    /// query, each with its distance.
    ///
    /// The linear search reports them all, in the order in which the tree
    /// holds them. The clustered search reports what [`Tree::is_ball`] says:
    /// the same hits, if the metric keeps its promises to the query and the
    /// descent loses no hit to the poles.
    pub fn search<T: Sync, M: Metric<T> + Sync>(
        &self,
        query: &T,
        radius: u64,
        tree: &Tree<T, M>,
    ) -> (hits: Vec<(usize, u64)>)
        requires
            tree.wf(),
            tree.root.built,
        ensures
            tree.is_ball(query, radius, hits@),
            *self == Algorithm::Linear ==> hits@ == tree.data.linear_hits(
                query,
                radius,
                tree.root.members(),
            ) && tree.data.is_complete_for(tree.root.members(), query, radius, hits@),
    {
        match self {
            Algorithm::Linear => {
                let indices = tree.indices();
                proof {
                    tree.data.lemma_linear_is_range_result(tree.root.members(), query, radius);
                }
                tree.data.linear_search(query, radius, indices.as_slice())
            },
            Algorithm::Clustered => search(tree, query, radius),
        }
    }
}

} // verus!
