//! Splitting a cluster round two poles, once or all the way down.

use vstd::prelude::*;
use crate::cluster::{same_elements, Children, Cluster, Index, SUB_SAMPLE_LIMIT};
use crate::criteria::{judges_alike, PartitionCriteria, PartitionCriterion};
use crate::dataset::{all_below, VecDataset};
use crate::error::ClamError;
use crate::helpers::{farthest, is_first_max};
use crate::history::MAX_HISTORY;
use crate::metric::Metric;

verus! {

/// What a filter keeps, it keeps once, if the sequence held it once.
pub proof fn lemma_filter_no_duplicates(s: Seq<usize>, p: spec_fn(usize) -> bool)
    requires
        s.no_duplicates(),
    ensures
        s.filter(p).no_duplicates(),
        forall|x: usize| #[trigger] s.filter(p).contains(x) ==> s.contains(x) && p(x),
        forall|x: usize| #[trigger] s.contains(x) && p(x) ==> s.filter(p).contains(x),
    decreases s.len(),
{
    reveal(Seq::filter);
    if s.len() > 0 {
        let front = s.drop_last();
        let last = s.last();
        lemma_filter_no_duplicates(front, p);
        let kept = front.filter(p);
        assert forall|x: usize| #[trigger] s.filter(p).contains(x) implies s.contains(x) && p(x) by {
            let j = choose|j: int| 0 <= j < s.filter(p).len() && s.filter(p)[j] == x;
            if p(last) && j == kept.len() {
                assert(s[s.len() - 1] == x);
            } else {
                assert(kept[j] == x);
                assert(kept.contains(x));
                let i = choose|i: int| 0 <= i < front.len() && front[i] == x;
                assert(s[i] == x);
            }
        }
        assert forall|x: usize| #[trigger] s.contains(x) && p(x) implies s.filter(p).contains(x) by {
            let i = choose|i: int| 0 <= i < s.len() && s[i] == x;
            if i == s.len() - 1 {
                assert(s.filter(p)[kept.len() as int] == x);
            } else {
                assert(front[i] == x);
                assert(front.contains(x));
                let j = choose|j: int| 0 <= j < kept.len() && kept[j] == x;
                assert(s.filter(p)[j] == x);
            }
        }
        if p(last) {
            assert(!kept.contains(last)) by {
                if kept.contains(last) {
                    let i = choose|i: int| 0 <= i < front.len() && front[i] == last;
                    assert(s[i] == s[s.len() - 1]);
                }
            }
            assert forall|i: int, j: int|
                0 <= i < kept.len() + 1 && 0 <= j < kept.len() + 1 && i != j implies kept.push(
                last,
            )[i] != kept.push(last)[j] by {
                if i < kept.len() {
                    assert(kept.contains(kept[i]));
                }
                if j < kept.len() {
                    assert(kept.contains(kept[j]));
                }
            }
        }
    }
}

impl Cluster {
    /// `b` is the instance of `indices` that is farthest from `a`, the first
    /// such instance where several are.
    pub open spec fn is_second_pole<T: Sync, M: Metric<T> + Sync>(
        data: &VecDataset<T, M>,
        indices: Seq<usize>,
        a: usize,
        b: usize,
    ) -> bool {
        exists|k: int| #[trigger]
            is_first_max(data.distances_from(a as int, indices), k) && b == indices[k]
    }

    /// The instances that go with the first pole `a`: those that are neither
    /// pole and are no farther from `a` than from `b`.
    pub open spec fn goes_first<T: Sync, M: Metric<T> + Sync>(
        data: &VecDataset<T, M>,
        a: usize,
        b: usize,
    ) -> spec_fn(usize) -> bool {
        |x: usize| x != a && x != b && data.dist(a as int, x as int) <= data.dist(b as int, x as int)
    }

    /// The instances that go with the second pole `b`: those that are
    /// neither pole and are farther from `a` than from `b`.
    pub open spec fn goes_second<T: Sync, M: Metric<T> + Sync>(
        data: &VecDataset<T, M>,
        a: usize,
        b: usize,
    ) -> spec_fn(usize) -> bool {
        |x: usize| x != a && x != b && data.dist(a as int, x as int) > data.dist(b as int, x as int)
    }

    /// The instances gathered round the first pole, in the order of
    /// `indices`, and last the pole itself.
    pub open spec fn first_bucket<T: Sync, M: Metric<T> + Sync>(
        data: &VecDataset<T, M>,
        indices: Seq<usize>,
        a: usize,
        b: usize,
    ) -> Seq<usize> {
        indices.filter(Self::goes_first(data, a, b)).push(a)
    }

    /// The instances gathered round the second pole, in the order of
    /// `indices`, and last the pole itself.
    pub open spec fn second_bucket<T: Sync, M: Metric<T> + Sync>(
        data: &VecDataset<T, M>,
        indices: Seq<usize>,
        a: usize,
        b: usize,
    ) -> Seq<usize> {
        indices.filter(Self::goes_second(data, a, b)).push(b)
    }

    /// The cluster is a leaf that was built and never reordered.
    pub open spec fn is_built_leaf(&self) -> bool {
        &&& self.built
        &&& self.index is Indices
        &&& self.children is None
    }

    /// `c` is what one split makes of this cluster.
    ///
    /// The first pole `a` is the instance farthest from the center, the
    /// second pole `b` the instance farthest from `a`. The two buckets are
    /// built into clusters named after this one, with a zero and a one
    /// appended; the larger bucket is the left child, and the first bucket
    /// where they are equal.
    pub open spec fn is_split_of<T: Sync, M: Metric<T> + Sync>(
        &self,
        c: &Children,
        data: &VecDataset<T, M>,
    ) -> bool {
        let a = self.arg_radius;
        let b = if c.left_pole == a {
            c.right_pole
        } else {
            c.left_pole
        };
        let first = Self::first_bucket(data, self.members(), a, b);
        let second = Self::second_bucket(data, self.members(), a, b);
        &&& a != b
        &&& Self::is_second_pole(data, self.members(), a, b)
        &&& c.polar_distance == data.dist(a as int, b as int)
        &&& if first.len() < second.len() {
            &&& c.left_pole == b
            &&& c.right_pole == a
            &&& c.left.members() == second
            &&& c.right.members() == first
        } else {
            &&& c.left_pole == a
            &&& c.right_pole == b
            &&& c.left.members() == first
            &&& c.right.members() == second
        }
        &&& c.left.is_built_leaf()
        &&& c.right.is_built_leaf()
        &&& c.left.wf(data)
        &&& c.right.wf(data)
        &&& c.left.is_built_from(data, c.left.members())
        &&& c.right.is_built_from(data, c.right.members())
        &&& c.left.bits() == self.bits().push(false)
        &&& c.right.bits() == self.bits().push(true)
        &&& c.left.seed == self.seed
        &&& c.right.seed == self.seed
    }

    /// The cluster with `c` as its children.
    pub open spec fn adopting(&self, c: Children) -> Cluster {
        Cluster { index: Index::Empty, children: Some(Box::new(c)), ..*self }
    }

    /// A cluster may be split where the criteria allow it, it has two
    /// instances that are apart, its name can grow by a bit, and the two
    /// poles are two instances.
    pub open spec fn can_split<T: Sync, M: Metric<T> + Sync, C: PartitionCriterion>(
        &self,
        data: &VecDataset<T, M>,
        criteria: &C,
    ) -> bool {
        &&& criteria.allows(self)
        &&& self.cardinality >= 2
        &&& self.radius > 0
        &&& self.bits().len() < MAX_HISTORY
        &&& !Self::is_second_pole(data, self.members(), self.arg_radius, self.arg_radius)
    }

    /// The two clusters agree in all but their instances and children.
    pub open spec fn same_node(&self, other: &Cluster) -> bool {
        &&& self.history == other.history
        &&& self.cardinality == other.cardinality
        &&& self.arg_center == other.arg_center
        &&& self.arg_radius == other.arg_radius
        &&& self.radius == other.radius
        &&& self.lfd == other.lfd
        &&& self.seed == other.seed
        &&& self.built == other.built
    }

    /// This cluster is what partitioning makes of the built leaf `before`.
    ///
    /// If `before` cannot be split, it is unchanged. If it can, it has
    /// exchanged its list of instances for the two children of one split;
    /// and if `recursive`, each child is in turn what partitioning makes of
    /// it.
    pub open spec fn is_partition_of<T: Sync, M: Metric<T> + Sync, C: PartitionCriterion>(
        &self,
        before: &Cluster,
        data: &VecDataset<T, M>,
        criteria: &C,
        recursive: bool,
    ) -> bool
        decreases self,
    {
        &&& self.same_node(before)
        &&& match self.children {
            None => !before.can_split(data, criteria) && self.index == before.index,
            Some(c) => {
                &&& before.can_split(data, criteria)
                &&& self.index is Empty
                &&& exists|once: Children| #[trigger]
                    before.is_split_of(&once, data) && c.left_pole == once.left_pole
                        && c.right_pole == once.right_pole && c.polar_distance
                        == once.polar_distance && if recursive {
                        c.left.is_partition_of(&once.left, data, criteria, recursive)
                            && c.right.is_partition_of(&once.right, data, criteria, recursive)
                    } else {
                        c.left == once.left && c.right == once.right
                    }
            },
        }
    }

    /// The two buckets share the instances of a cluster between them.
    pub proof fn lemma_buckets<T: Sync, M: Metric<T> + Sync>(
        data: &VecDataset<T, M>,
        indices: Seq<usize>,
        a: usize,
        b: usize,
    )
        requires
            indices.no_duplicates(),
            indices.contains(a),
            indices.contains(b),
            a != b,
        ensures
            ({
                let first = Self::first_bucket(data, indices, a, b);
                let second = Self::second_bucket(data, indices, a, b);
                &&& first.no_duplicates()
                &&& second.no_duplicates()
                &&& (first + second).no_duplicates()
                &&& (second + first).no_duplicates()
                &&& same_elements(indices, first + second)
                &&& same_elements(indices, second + first)
                &&& first.contains(a)
                &&& second.contains(b)
                &&& forall|x: usize| first.contains(x) ==> indices.contains(x)
                &&& forall|x: usize| second.contains(x) ==> indices.contains(x)
                &&& Self::all_side_with_first(data, a, b, first)
                &&& Self::all_side_with_second(data, a, b, second)
            }),
    {
        let pa = Self::goes_first(data, a, b);
        let pb = Self::goes_second(data, a, b);
        let fa = indices.filter(pa);
        let fb = indices.filter(pb);
        let first = fa.push(a);
        let second = fb.push(b);
        lemma_filter_no_duplicates(indices, pa);
        lemma_filter_no_duplicates(indices, pb);
        assert(first[fa.len() as int] == a);
        assert(second[fb.len() as int] == b);
        assert forall|k: int| 0 <= k < first.len() implies (first[k] == a <==> k == fa.len())
            && indices.contains(first[k]) && !second.contains(first[k]) && (k < fa.len() ==> pa(
            first[k],
        )) by {
            if k < fa.len() {
                assert(fa.contains(fa[k]));
            }
            if second.contains(first[k]) {
                let j = choose|j: int| 0 <= j < second.len() && second[j] == first[k];
                if j < fb.len() {
                    assert(fb.contains(fb[j]));
                }
            }
        }
        assert forall|k: int| 0 <= k < second.len() implies (second[k] == b <==> k == fb.len())
            && indices.contains(second[k]) && (k < fb.len() ==> pb(second[k])) by {
            if k < fb.len() {
                assert(fb.contains(fb[k]));
            }
        }
        assert forall|i: int, j: int|
            0 <= i < first.len() && 0 <= j < first.len() && i != j implies first[i]
            != first[j] by {}
        assert forall|i: int, j: int|
            0 <= i < second.len() && 0 <= j < second.len() && i != j implies second[i]
            != second[j] by {}
        let fs = first + second;
        let sf = second + first;
        assert forall|i: int, j: int| 0 <= i < fs.len() && 0 <= j < fs.len() && i != j implies fs[i]
            != fs[j] by {
            if i < first.len() && j >= first.len() {
                assert(second.contains(second[j - first.len()]));
            }
            if j < first.len() && i >= first.len() {
                assert(second.contains(second[i - first.len()]));
            }
        }
        assert forall|i: int, j: int| 0 <= i < sf.len() && 0 <= j < sf.len() && i != j implies sf[i]
            != sf[j] by {
            if i < second.len() && j >= second.len() {
                assert(second.contains(second[i]));
            }
            if j < second.len() && i >= second.len() {
                assert(second.contains(second[j]));
            }
        }
        assert forall|x: usize| indices.contains(x) <==> fs.contains(x) by {
            if indices.contains(x) {
                if x == a {
                    assert(fs[fa.len() as int] == x);
                } else if x == b {
                    assert(fs[first.len() as int + fb.len() as int] == x);
                } else if pa(x) {
                    assert(fa.contains(x));
                    let j = choose|j: int| 0 <= j < fa.len() && fa[j] == x;
                    assert(fs[j] == x);
                } else {
                    assert(pb(x));
                    assert(fb.contains(x));
                    let j = choose|j: int| 0 <= j < fb.len() && fb[j] == x;
                    assert(fs[first.len() as int + j] == x);
                }
            }
            if fs.contains(x) {
                let j = choose|j: int| 0 <= j < fs.len() && fs[j] == x;
                if j < first.len() {
                    assert(first[j] == x);
                } else {
                    assert(second[j - first.len()] == x);
                }
            }
        }
        assert forall|x: usize| fs.contains(x) <==> sf.contains(x) by {
            if fs.contains(x) {
                let j = choose|j: int| 0 <= j < fs.len() && fs[j] == x;
                if j < first.len() {
                    assert(sf[second.len() as int + j] == x);
                } else {
                    assert(sf[j - first.len()] == x);
                }
            }
            if sf.contains(x) {
                let j = choose|j: int| 0 <= j < sf.len() && sf[j] == x;
                if j < second.len() {
                    assert(fs[first.len() as int + j] == x);
                } else {
                    assert(fs[j - second.len()] == x);
                }
            }
        }
        assert forall|x: usize| first.contains(x) implies indices.contains(x) by {
            let j = choose|j: int| 0 <= j < first.len() && first[j] == x;
        }
        assert forall|x: usize| second.contains(x) implies indices.contains(x) by {
            let j = choose|j: int| 0 <= j < second.len() && second[j] == x;
        }
    }
}

impl Cluster {
    /// Splits the instances of a built leaf round two poles and builds the
    /// two children. `None` where the instance farthest from the first pole
    /// is that pole itself, which no metric allows while the radius is not
    /// zero.
    pub fn partition_once<T: Sync, M: Metric<T> + Sync>(&self, data: &VecDataset<T, M>) -> (res:
        Option<Children>)
        requires
            data.wf(),
            self.wf(data),
            self.index is Indices,
            self.cardinality >= 2,
            self.radius > 0,
            self.bits().len() < MAX_HISTORY,
        ensures
            res is None <==> Self::is_second_pole(
                data,
                self.members(),
                self.arg_radius,
                self.arg_radius,
            ),
            res is Some ==> ({
                let c = res->Some_0;
                &&& self.is_split_of(&c, data)
                &&& self.adopting(c).wf(data)
                &&& c.left.wf(data)
                &&& c.right.wf(data)
                &&& c.left.cardinality < self.cardinality
                &&& c.right.cardinality < self.cardinality
                &&& same_elements(self.members(), c.left.members() + c.right.members())
            }),
    {
        let indices = match &self.index {
            Index::Indices(v) => v,
            _ => {
                return None;
            },
        };
        let ghost all = indices@;
        let a = self.arg_radius;
        let from_a = data.one_to_many(a, indices.as_slice());
        let (kb, polar) = farthest(from_a.as_slice());
        let b = indices[kb];
        proof {
            assert(is_first_max(data.distances_from(a as int, all), kb as int));
            assert forall|k: int| #[trigger]
                is_first_max(data.distances_from(a as int, all), k) implies k == kb by {
                let d = data.distances_from(a as int, all);
                if k < kb {
                    assert(d[k] < d[kb as int]);
                    assert(d[kb as int] <= d[k]);
                } else if k > kb {
                    assert(d[kb as int] < d[k]);
                    assert(d[k] <= d[kb as int]);
                }
            }
            assert(all.contains(b));
        }
        if b == a {
            return None;
        }
        proof {
            assert(!Self::is_second_pole(data, all, a, a)) by {
                if Self::is_second_pole(data, all, a, a) {
                    let k = choose|k: int| #[trigger]
                        is_first_max(data.distances_from(a as int, all), k) && a == all[k];
                    assert(k == kb);
                }
            }
        }
        let from_b = data.one_to_many(b, indices.as_slice());
        let ghost pa = Self::goes_first(data, a, b);
        let ghost pb = Self::goes_second(data, a, b);
        let mut near_a: Vec<usize> = Vec::new();
        let mut near_b: Vec<usize> = Vec::new();
        let ghost mut poles: int = 0;
        let mut k: usize = 0;
        proof {
            reveal(Seq::filter);
            assert(all.take(0).filter(pa) =~= Seq::<usize>::empty());
            assert(all.take(0).filter(pb) =~= Seq::<usize>::empty());
        }
        while k < indices.len()
            invariant
                all == indices@,
                all.no_duplicates(),
                a != b,
                pa == Self::goes_first(data, a, b),
                pb == Self::goes_second(data, a, b),
                from_a@ == data.distances_from(a as int, all),
                from_b@ == data.distances_from(b as int, all),
                k <= all.len(),
                near_a@ == all.take(k as int).filter(pa),
                near_b@ == all.take(k as int).filter(pb),
                poles == (if all.take(k as int).contains(a) {
                    1int
                } else {
                    0int
                }) + (if all.take(k as int).contains(b) {
                    1int
                } else {
                    0int
                }),
                near_a@.len() + near_b@.len() + poles == k,
            decreases all.len() - k,
        {
            let x = indices[k];
            proof {
                let before = all.take(k as int);
                let after = all.take(k as int + 1);
                assert(after =~= before.push(x));
                before.lemma_filter_push(x, pa);
                before.lemma_filter_push(x, pb);
                assert(!before.contains(x)) by {
                    if before.contains(x) {
                        let j = choose|j: int| 0 <= j < before.len() && before[j] == x;
                        assert(all[j] == all[k as int]);
                    }
                }
                assert forall|y: usize| after.contains(y) <==> (before.contains(y) || y == x) by {
                    if before.contains(y) {
                        let j = choose|j: int| 0 <= j < before.len() && before[j] == y;
                        assert(after[j] == y);
                    }
                    if y == x {
                        assert(after[k as int] == y);
                    }
                    if after.contains(y) {
                        let j = choose|j: int| 0 <= j < after.len() && after[j] == y;
                        if j < k {
                            assert(before[j] == y);
                        }
                    }
                }
            }
            if x != a && x != b {
                if from_a[k] <= from_b[k] {
                    near_a.push(x);
                } else {
                    near_b.push(x);
                }
            } else {
                proof {
                    poles = poles + 1;
                }
            }
            k += 1;
        }
        near_a.push(a);
        near_b.push(b);
        proof {
            assert(all.take(k as int) =~= all);
            assert(poles == 2);
            Self::lemma_buckets(data, all, a, b);
            assert(near_a@ == Self::first_bucket(data, all, a, b));
            assert(near_b@ == Self::second_bucket(data, all, a, b));
            assert forall|j: int| 0 <= j < near_a@.len() implies #[trigger] near_a@[j]
                < data.len() by {
                assert(near_a@.contains(near_a@[j]));
                let i = choose|i: int| 0 <= i < all.len() && all[i] == near_a@[j];
            }
            assert forall|j: int| 0 <= j < near_b@.len() implies #[trigger] near_b@[j]
                < data.len() by {
                assert(near_b@.contains(near_b@[j]));
                let i = choose|i: int| 0 <= i < all.len() && all[i] == near_b@[j];
            }
        }
        let swap = near_a.len() < near_b.len();
        let left_name = self.history.child(false).unwrap();
        let right_name = self.history.child(true).unwrap();
        let (left_pole, left_indices, right_pole, right_indices) = if swap {
            (b, near_b, a, near_a)
        } else {
            (a, near_a, b, near_b)
        };
        let mut left = Cluster::new(left_indices, left_name);
        left.seed = self.seed;
        let mut right = Cluster::new(right_indices, right_name);
        right.seed = self.seed;
        proof {
            assert(left.members() == if swap { near_b@ } else { near_a@ });
            assert(right.members() == if swap { near_a@ } else { near_b@ });
            assert(!left.built && left.index is Indices);
            assert(left.members().len() >= 1);
            assert(all_below(left.members(), data.len()));
            assert(left.members().no_duplicates());
            assert(left.history.wf());
        }
        let left_built = left.build(data);
        assert(left_built is Ok);
        let right_built = right.build(data);
        assert(right_built is Ok);
        let left = left_built.unwrap();
        let right = right_built.unwrap();
        let c = Children { left_pole, left, right_pole, right, polar_distance: polar };
        proof {
            let parent = self.adopting(c);
            let m = parent.members();
            assert(m == c.left.members() + c.right.members());
            assert(same_elements(all, m));
            assert forall|j: int| 0 <= j < m.len() implies all.contains(#[trigger] m[j]) by {
                assert(m.contains(m[j]));
            }
            assert(all.contains(self.arg_center));
            assert(all.contains(self.arg_radius));
            assert forall|j: int| 0 <= j < m.len() implies data.dist(
                self.arg_center as int,
                #[trigger] m[j] as int,
            ) <= self.radius && data.dist(a as int, m[j] as int) <= polar by {
                assert(all.contains(m[j]));
                let i = choose|i: int| 0 <= i < all.len() && all[i] == m[j];
                assert(from_a@[i] <= from_a@[kb as int]);
            }
            assert(all_below(m, data.len()));
            assert(parent.node_ok(data));
            assert(parent.split_ok(&c, data));
        }
        Some(c)
    }
}

/// Partitions two clusters at once: `rayon::join` runs the two closures,
/// possibly on two threads, and returns what they return, the first closure's
/// result first. Each closure is one call of [`Cluster::par_grow`].
#[verifier::external_body]
fn join_grow<T: Sync, M: Metric<T> + Sync, C: PartitionCriterion + Sync>(
    left: Cluster,
    right: Cluster,
    data: &VecDataset<T, M>,
    criteria: &C,
) -> (res: (Cluster, Cluster))
    requires
        data.wf(),
        left.wf(data),
        right.wf(data),
        left.index is Indices,
        right.index is Indices,
    ensures
        res.0.is_grown_from(&left, data, criteria, true),
        res.1.is_grown_from(&right, data, criteria, true),
{
    rayon::join(
        || left.par_grow(data, criteria, true),
        || right.par_grow(data, criteria, true),
    )
}

impl Cluster {
    /// Why [`Cluster::partition`] refuses the cluster, if it does: it was not
    /// built, or it no longer holds a list of positions.
    pub open spec fn partition_error(&self) -> Option<ClamError> {
        if !self.built || !(self.index is Indices) {
            Some(ClamError::InvalidLifecycle)
        } else {
            None
        }
    }

    /// This cluster is a sound subtree that partitioning makes of the built
    /// leaf `before`, with the instances that `before` has.
    pub open spec fn is_grown_from<T: Sync, M: Metric<T> + Sync, C: PartitionCriterion>(
        &self,
        before: &Cluster,
        data: &VecDataset<T, M>,
        criteria: &C,
        recursive: bool,
    ) -> bool {
        &&& self.wf(data)
        &&& !(self.index is Offset)
        &&& self.is_partition_of(before, data, criteria, recursive)
        &&& same_elements(before.members(), self.members())
    }

    /// A parent stays sound when its children are exchanged for sound
    /// subtrees with the same names, centers and instances.
    pub proof fn lemma_adopt<T: Sync, M: Metric<T> + Sync>(
        &self,
        once: Children,
        grown: Children,
        data: &VecDataset<T, M>,
    )
        requires
            self.adopting(once).wf(data),
            grown.left_pole == once.left_pole,
            grown.right_pole == once.right_pole,
            grown.polar_distance == once.polar_distance,
            grown.left.wf(data),
            grown.right.wf(data),
            grown.left.same_node(&once.left),
            grown.right.same_node(&once.right),
            !(grown.left.index is Offset),
            !(grown.right.index is Offset),
            same_elements(once.left.members(), grown.left.members()),
            same_elements(once.right.members(), grown.right.members()),
        ensures
            self.adopting(grown).wf(data),
            same_elements(self.adopting(once).members(), self.adopting(grown).members()),
    {
        let p0 = self.adopting(once);
        let p1 = self.adopting(grown);
        let m0 = p0.members();
        let m1 = p1.members();
        let l0 = once.left.members();
        let r0 = once.right.members();
        let l1 = grown.left.members();
        let r1 = grown.right.members();
        assert(m0 == l0 + r0);
        assert(m1 == l1 + r1);
        assert(p0.split_ok(&once, data));
        assert forall|x: usize| l0.contains(x) implies !r0.contains(x) by {
            if r0.contains(x) {
                let i = choose|i: int| 0 <= i < l0.len() && l0[i] == x;
                let j = choose|j: int| 0 <= j < r0.len() && r0[j] == x;
                assert(m0[i] == m0[l0.len() + j]);
            }
        }
        assert forall|x: usize| m0.contains(x) <==> (l0.contains(x) || r0.contains(x)) by {
            if m0.contains(x) {
                let i = choose|i: int| 0 <= i < m0.len() && m0[i] == x;
                if i < l0.len() {
                    assert(l0[i] == x);
                } else {
                    assert(r0[i - l0.len()] == x);
                }
            }
            if l0.contains(x) {
                let i = choose|i: int| 0 <= i < l0.len() && l0[i] == x;
                assert(m0[i] == x);
            }
            if r0.contains(x) {
                let i = choose|i: int| 0 <= i < r0.len() && r0[i] == x;
                assert(m0[l0.len() + i] == x);
            }
        }
        assert forall|x: usize| m1.contains(x) <==> (l1.contains(x) || r1.contains(x)) by {
            if m1.contains(x) {
                let i = choose|i: int| 0 <= i < m1.len() && m1[i] == x;
                if i < l1.len() {
                    assert(l1[i] == x);
                } else {
                    assert(r1[i - l1.len()] == x);
                }
            }
            if l1.contains(x) {
                let i = choose|i: int| 0 <= i < l1.len() && l1[i] == x;
                assert(m1[i] == x);
            }
            if r1.contains(x) {
                let i = choose|i: int| 0 <= i < r1.len() && r1[i] == x;
                assert(m1[l1.len() + i] == x);
            }
        }
        assert(same_elements(m0, m1));
        assert forall|i: int, j: int| 0 <= i < m1.len() && 0 <= j < m1.len() && i != j implies m1[i]
            != m1[j] by {
            if i < l1.len() && j >= l1.len() {
                assert(l1.contains(l1[i]));
                assert(r1.contains(r1[j - l1.len()]));
            }
            if j < l1.len() && i >= l1.len() {
                assert(l1.contains(l1[j]));
                assert(r1.contains(r1[i - l1.len()]));
            }
        }
        assert forall|k: int| 0 <= k < m1.len() implies m0.contains(#[trigger] m1[k]) by {
            assert(m1.contains(m1[k]));
        }
        assert forall|k: int| 0 <= k < m1.len() implies data.dist(
            self.arg_center as int,
            #[trigger] m1[k] as int,
        ) <= self.radius && data.dist(self.arg_radius as int, m1[k] as int)
            <= grown.polar_distance by {
            assert(m0.contains(m1[k]));
            let i = choose|i: int| 0 <= i < m0.len() && m0[i] == m1[k];
        }
        assert(once.left.wf(data) && once.right.wf(data));
        assert(l1.len() == l0.len() && r1.len() == r0.len());
        assert(m1.len() == self.cardinality);
        assert(all_below(m1, data.len()));
        assert(m1.no_duplicates());
        assert(m1.contains(self.arg_center));
        assert(m1.contains(self.arg_radius));
        assert(p1.node_ok(data));
        let a = self.arg_radius;
        let b = if once.left_pole == a {
            once.right_pole
        } else {
            once.left_pole
        };
        assert forall|k: int| 0 <= k < l1.len() implies l0.contains(#[trigger] l1[k]) by {
            assert(l1.contains(l1[k]));
        }
        assert forall|k: int| 0 <= k < r1.len() implies r0.contains(#[trigger] r1[k]) by {
            assert(r1.contains(r1[k]));
        }
        if once.left_pole == a {
            assert forall|k: int| 0 <= k < l1.len() implies Self::sides_with_first(
                data,
                a,
                b,
                #[trigger] l1[k],
            ) by {
                let i = choose|i: int| 0 <= i < l0.len() && l0[i] == l1[k];
                assert(Self::sides_with_first(data, a, b, l0[i]));
            }
            assert forall|k: int| 0 <= k < r1.len() implies Self::sides_with_second(
                data,
                a,
                b,
                #[trigger] r1[k],
            ) by {
                let i = choose|i: int| 0 <= i < r0.len() && r0[i] == r1[k];
                assert(Self::sides_with_second(data, a, b, r0[i]));
            }
        } else {
            assert forall|k: int| 0 <= k < l1.len() implies Self::sides_with_second(
                data,
                a,
                b,
                #[trigger] l1[k],
            ) by {
                let i = choose|i: int| 0 <= i < l0.len() && l0[i] == l1[k];
                assert(Self::sides_with_second(data, a, b, l0[i]));
            }
            assert forall|k: int| 0 <= k < r1.len() implies Self::sides_with_first(
                data,
                a,
                b,
                #[trigger] r1[k],
            ) by {
                let i = choose|i: int| 0 <= i < r0.len() && r0[i] == r1[k];
                assert(Self::sides_with_first(data, a, b, r0[i]));
            }
        }
        assert(l1.contains(grown.left_pole));
        assert(r1.contains(grown.right_pole));
        assert(p1.split_ok(&grown, data));
    }

    /// Partitions a built leaf: splits it if the criteria allow and it can be
    /// split, and then, if `recursive`, partitions the children in turn.
    pub fn grow<T: Sync, M: Metric<T> + Sync, C: PartitionCriterion + Sync>(
        self,
        data: &VecDataset<T, M>,
        criteria: &C,
        recursive: bool,
    ) -> (res: Cluster)
        requires
            data.wf(),
            self.wf(data),
            self.index is Indices,
        ensures
            res.is_grown_from(&self, data, criteria, recursive),
        decreases self.cardinality,
    {
        let allowed = criteria.check(&self) && self.cardinality >= 2 && self.radius > 0
            && self.history.len() < MAX_HISTORY;
        if !allowed {
            return self;
        }
        match self.partition_once(data) {
            None => self,
            Some(once) => {
                let ghost split = once;
                let Children { left_pole, left, right_pole, right, polar_distance } = once;
                let (left, right) = if recursive {
                    (left.grow(data, criteria, recursive), right.grow(data, criteria, recursive))
                } else {
                    (left, right)
                };
                let grown = Children { left_pole, left, right_pole, right, polar_distance };
                proof {
                    self.lemma_adopt(split, grown, data);
                }
                let mut res = self;
                res.index = Index::Empty;
                res.children = Some(Box::new(grown));
                proof {
                    assert(res == self.adopting(grown));
                    assert(self.is_split_of(&split, data));
                }
                res
            },
        }
    }

    /// As [`Cluster::grow`], with the two children of each split partitioned
    /// side by side.
    pub fn par_grow<T: Sync, M: Metric<T> + Sync, C: PartitionCriterion + Sync>(
        self,
        data: &VecDataset<T, M>,
        criteria: &C,
        recursive: bool,
    ) -> (res: Cluster)
        requires
            data.wf(),
            self.wf(data),
            self.index is Indices,
        ensures
            res.is_grown_from(&self, data, criteria, recursive),
    {
        let allowed = criteria.check(&self) && self.cardinality >= 2 && self.radius > 0
            && self.history.len() < MAX_HISTORY;
        if !allowed {
            return self;
        }
        match self.partition_once(data) {
            None => self,
            Some(once) => {
                let ghost split = once;
                let Children { left_pole, left, right_pole, right, polar_distance } = once;
                let (left, right) = if recursive {
                    join_grow(left, right, data, criteria)
                } else {
                    (left, right)
                };
                let grown = Children { left_pole, left, right_pole, right, polar_distance };
                proof {
                    self.lemma_adopt(split, grown, data);
                }
                let mut res = self;
                res.index = Index::Empty;
                res.children = Some(Box::new(grown));
                proof {
                    assert(res == self.adopting(grown));
                    assert(self.is_split_of(&split, data));
                }
                res
            },
        }
    }

    /// Partitions the cluster by the given criteria: it either stays a leaf
    /// or gets two children, and with `recursive` so do they, down to
    /// clusters that the criteria reject or that cannot be split.
    ///
    /// Refused as out of order for a cluster that was not built, or that no
    /// longer holds a list of positions.
    pub fn partition<T: Sync, M: Metric<T> + Sync, C: PartitionCriterion + Sync>(
        self,
        data: &VecDataset<T, M>,
        criteria: &C,
        recursive: bool,
    ) -> (res: Result<Cluster, ClamError>)
        requires
            data.wf(),
            self.built ==> self.wf(data),
        ensures
            match res {
                Ok(c) => self.partition_error() is None && c.is_grown_from(
                    &self,
                    data,
                    criteria,
                    recursive,
                ),
                Err(e) => self.partition_error() == Some(e),
            },
    {
        if !self.built || !self.holds_indices() {
            return Err(ClamError::InvalidLifecycle);
        }
        Ok(self.grow(data, criteria, recursive))
    }

    /// As [`Cluster::partition`], with the two children of each split
    /// partitioned side by side. The tree is the same.
    pub fn par_partition<T: Sync, M: Metric<T> + Sync, C: PartitionCriterion + Sync>(
        self,
        data: &VecDataset<T, M>,
        criteria: &C,
        recursive: bool,
    ) -> (res: Result<Cluster, ClamError>)
        requires
            data.wf(),
            self.built ==> self.wf(data),
        ensures
            match res {
                Ok(c) => self.partition_error() is None && c.is_grown_from(
                    &self,
                    data,
                    criteria,
                    recursive,
                ),
                Err(e) => self.partition_error() == Some(e),
            },
    {
        if !self.built || !self.holds_indices() {
            return Err(ClamError::InvalidLifecycle);
        }
        Ok(self.par_grow(data, criteria, recursive))
    }

    /// Whether the cluster holds a list of positions.
    pub fn holds_indices(&self) -> (res: bool)
        ensures
            res == self.index is Indices,
    {
        match &self.index {
            Index::Indices(_) => true,
            _ => false,
        }
    }
}

impl Cluster {
    /// Every leaf of the subtree holds one instance.
    pub open spec fn leaves_are_single(&self) -> bool
        decreases self,
    {
        match self.children {
            None => self.cardinality == 1,
            Some(c) => c.left.leaves_are_single() && c.right.leaves_are_single(),
        }
    }

    /// A built cluster of two or more instances can be split, where the
    /// criteria ask only for more than one instance, no two instances of the
    /// dataset are at distance zero from each other, each is at distance zero
    /// from itself, and the name can grow.
    pub proof fn lemma_can_split<T: Sync, M: Metric<T> + Sync>(
        &self,
        data: &VecDataset<T, M>,
        criteria: &PartitionCriteria,
    )
        requires
            self.node_ok(data),
            self.cardinality >= 2,
            self.bits().len() < MAX_HISTORY,
            criteria.max_depth is None,
            criteria.min_cardinality == Some(1usize),
            criteria.min_radius is None,
            data.separates(),
            data.is_reflexive(),
        ensures
            self.can_split(data, criteria),
    {
        let m = self.members();
        let ci = choose|i: int| 0 <= i < m.len() && m[i] == self.arg_center;
        let other: int = if ci == 0 {
            1
        } else {
            0
        };
        assert(m[other] != m[ci]);
        assert(m[other] < data.len() && m[ci] < data.len());
        assert(data.dist(m[ci] as int, m[other] as int) != 0);
        assert(data.dist(self.arg_center as int, m[other] as int) <= self.radius);
        let a = self.arg_radius;
        let ai = choose|i: int| 0 <= i < m.len() && m[i] == a;
        let far: int = if ai == 0 {
            1
        } else {
            0
        };
        assert(m[far] != m[ai]);
        assert(m[far] < data.len() && m[ai] < data.len());
        assert(data.dist(a as int, m[far] as int) != 0);
        assert(data.dist(a as int, a as int) == 0);
        if Self::is_second_pole(data, m, a, a) {
            let from_a = data.distances_from(a as int, m);
            let k = choose|k: int| #[trigger] is_first_max(from_a, k) && a == m[k];
            assert(from_a[far] <= from_a[k]);
        }
    }

    /// One split leaves each child fewer instances than the parent had.
    pub proof fn lemma_split_shrinks<T: Sync, M: Metric<T> + Sync>(
        &self,
        once: &Children,
        data: &VecDataset<T, M>,
    )
        requires
            self.node_ok(data),
            self.is_split_of(once, data),
        ensures
            once.left.cardinality + once.right.cardinality == self.cardinality,
            once.left.cardinality >= 1,
            once.right.cardinality >= 1,
    {
        let a = self.arg_radius;
        let b = if once.left_pole == a {
            once.right_pole
        } else {
            once.left_pole
        };
        let all = self.members();
        let first = Self::first_bucket(data, all, a, b);
        let second = Self::second_bucket(data, all, a, b);
        let k = choose|k: int| #[trigger]
            is_first_max(data.distances_from(a as int, all), k) && b == all[k];
        assert(all.contains(b));
        Self::lemma_buckets(data, all, a, b);
        let both = first + second;
        both.unique_seq_to_set();
        all.unique_seq_to_set();
        assert(both.to_set() =~= all.to_set());
        assert(once.left.node_ok(data) && once.right.node_ok(data));
    }

    /// Partitioned all the way down, with no limit but that a cluster must
    /// hold more than one instance, a tree ends in leaves of one instance
    /// each, if no two instances of the dataset are at distance zero from
    /// each other and each is at distance zero from itself.
    ///
    /// Names must be able to grow as far as the tree can reach: the bits of
    /// the name and the instances of the cluster together are no more than
    /// one more than the longest name.
    pub proof fn lemma_leaves_are_single<T: Sync, M: Metric<T> + Sync>(
        &self,
        before: &Cluster,
        data: &VecDataset<T, M>,
        criteria: &PartitionCriteria,
    )
        requires
            before.wf(data),
            self.is_partition_of(before, data, criteria, true),
            criteria.max_depth is None,
            criteria.min_cardinality == Some(1usize),
            criteria.min_radius is None,
            data.separates(),
            data.is_reflexive(),
            before.bits().len() + before.cardinality <= MAX_HISTORY + 1,
        ensures
            self.leaves_are_single(),
        decreases self,
    {
        match self.children {
            None => {
                if before.cardinality >= 2 {
                    before.lemma_can_split(data, criteria);
                }
            },
            Some(c) => {
                let once = choose|once: Children| #[trigger]
                    before.is_split_of(&once, data) && c.left_pole == once.left_pole
                        && c.right_pole == once.right_pole && c.polar_distance
                        == once.polar_distance && c.left.is_partition_of(
                        &once.left,
                        data,
                        criteria,
                        true,
                    ) && c.right.is_partition_of(&once.right, data, criteria, true);
                before.lemma_split_shrinks(&once, data);
                c.left.lemma_leaves_are_single(&once.left, data, criteria);
                c.right.lemma_leaves_are_single(&once.right, data, criteria);
            },
        }
    }

    /// A cluster of one instance has radius zero and local fractal dimension
    /// one, and cannot be split, if the instance is at distance zero from
    /// itself.
    pub proof fn lemma_single_instance<T: Sync, M: Metric<T> + Sync, C: PartitionCriterion>(
        &self,
        data: &VecDataset<T, M>,
        criteria: &C,
    )
        requires
            self.node_ok(data),
            self.is_built_from(data, self.members()),
            self.cardinality == 1,
            data.is_reflexive(),
        ensures
            self.radius == 0,
            self.arg_center == self.members()[0],
            self.arg_radius == self.members()[0],
            self.lfd == (crate::helpers::Lfd { count: 2, half_count: 1 }),
            !self.can_split(data, criteria),
    {
        let m = self.members();
        let ci = choose|i: int| 0 <= i < m.len() && m[i] == self.arg_center;
        let ri = choose|i: int| 0 <= i < m.len() && m[i] == self.arg_radius;
        assert(m[0] < data.len());
    }
}

impl Cluster {
    /// The two clusters know their instances in the same way: both by a list,
    /// both by a run that starts at the same position, or both through their
    /// children.
    pub open spec fn is_indexed_like(&self, other: &Cluster) -> bool {
        match self.index {
            Index::Indices(_) => other.index is Indices,
            Index::Offset(o) => other.index == Index::Offset(o),
            Index::Empty => other.index is Empty,
        }
    }

    /// The two subtrees are the same: cluster by cluster they have the same
    /// name, the same instances in the same order, the same center, farthest
    /// instance, radius, fractal dimension and seed, and the same poles and
    /// polar distance.
    pub open spec fn is_same_tree(&self, other: &Cluster) -> bool
        decreases self,
    {
        &&& self.bits() == other.bits()
        &&& self.cardinality == other.cardinality
        &&& self.arg_center == other.arg_center
        &&& self.arg_radius == other.arg_radius
        &&& self.radius == other.radius
        &&& self.lfd == other.lfd
        &&& self.seed == other.seed
        &&& self.built == other.built
        &&& self.is_indexed_like(other)
        &&& self.members() == other.members()
        &&& match self.children {
            None => other.children is None,
            Some(c) => {
                &&& other.children is Some
                &&& c.left_pole == other.children->Some_0.left_pole
                &&& c.right_pole == other.children->Some_0.right_pole
                &&& c.polar_distance == other.children->Some_0.polar_distance
                &&& c.left.is_same_tree(&other.children->Some_0.left)
                &&& c.right.is_same_tree(&other.children->Some_0.right)
            },
        }
    }

    /// The instance farthest from another is one instance.
    pub proof fn lemma_second_pole_is_one<T: Sync, M: Metric<T> + Sync>(
        data: &VecDataset<T, M>,
        indices: Seq<usize>,
        a: usize,
        b: usize,
        c: usize,
    )
        requires
            Self::is_second_pole(data, indices, a, b),
            Self::is_second_pole(data, indices, a, c),
        ensures
            b == c,
    {
        let d = data.distances_from(a as int, indices);
        let i = choose|k: int| #[trigger] is_first_max(d, k) && b == indices[k];
        let j = choose|k: int| #[trigger] is_first_max(d, k) && c == indices[k];
        if i < j {
            assert(d[i] < d[j]);
            assert(d[j] <= d[i]);
        } else if j < i {
            assert(d[j] < d[i]);
            assert(d[i] <= d[j]);
        }
    }

    /// One split is determined: what it makes of two built leaves that are
    /// the same, and that have a seed or fewer instances than are sampled,
    /// are the same children.
    pub proof fn lemma_split_is_determined<T: Sync, M: Metric<T> + Sync>(
        &self,
        other: &Cluster,
        mine: &Children,
        theirs: &Children,
        data: &VecDataset<T, M>,
    )
        requires
            self.node_ok(data),
            other.node_ok(data),
            self.is_same_tree(other),
            self.seed is Some || self.cardinality < SUB_SAMPLE_LIMIT,
            self.is_split_of(mine, data),
            other.is_split_of(theirs, data),
        ensures
            mine.left_pole == theirs.left_pole,
            mine.right_pole == theirs.right_pole,
            mine.polar_distance == theirs.polar_distance,
            mine.left.is_same_tree(&theirs.left),
            mine.right.is_same_tree(&theirs.right),
            mine.left.seed is Some || mine.left.cardinality < SUB_SAMPLE_LIMIT,
            mine.right.seed is Some || mine.right.cardinality < SUB_SAMPLE_LIMIT,
    {
        let a = self.arg_radius;
        let b = if mine.left_pole == a {
            mine.right_pole
        } else {
            mine.left_pole
        };
        let c = if theirs.left_pole == a {
            theirs.right_pole
        } else {
            theirs.left_pole
        };
        Self::lemma_second_pole_is_one(data, self.members(), a, b, c);
        self.lemma_split_shrinks(mine, data);
        other.lemma_split_shrinks(theirs, data);
        assert(mine.left.node_ok(data) && mine.right.node_ok(data));
        assert(theirs.left.node_ok(data) && theirs.right.node_ok(data));
        mine.left.lemma_build_is_determined(&theirs.left, data, mine.left.members());
        mine.right.lemma_build_is_determined(&theirs.right, data, mine.right.members());
    }

    /// Partitioning is determined: the trees that it grows from two built
    /// leaves that are the same, by criteria that judge a cluster by what it
    /// holds, are the same tree, if the leaves have a seed or fewer
    /// instances than are sampled. So the tree that is grown side by side is
    /// the tree that is grown in turn, and a seed repeats a tree.
    pub proof fn lemma_partition_is_determined<
        T: Sync,
        M: Metric<T> + Sync,
        C: PartitionCriterion,
    >(
        &self,
        other: &Cluster,
        before: &Cluster,
        other_before: &Cluster,
        data: &VecDataset<T, M>,
        criteria: &C,
        recursive: bool,
    )
        requires
            before.wf(data),
            other_before.wf(data),
            before.is_built_leaf(),
            other_before.is_built_leaf(),
            before.is_same_tree(other_before),
            before.seed is Some || before.cardinality < SUB_SAMPLE_LIMIT,
            judges_alike(criteria),
            self.is_partition_of(before, data, criteria, recursive),
            other.is_partition_of(other_before, data, criteria, recursive),
        ensures
            self.is_same_tree(other),
        decreases self,
    {
        assert(before.can_split(data, criteria) == other_before.can_split(data, criteria));
        match self.children {
            None => {
                assert(self.members() == before.members());
                assert(other.members() == other_before.members());
            },
            Some(c) => {
                let d = other.children->Some_0;
                let mine = choose|once: Children| #[trigger]
                    before.is_split_of(&once, data) && c.left_pole == once.left_pole
                        && c.right_pole == once.right_pole && c.polar_distance
                        == once.polar_distance && if recursive {
                        c.left.is_partition_of(&once.left, data, criteria, recursive)
                            && c.right.is_partition_of(&once.right, data, criteria, recursive)
                    } else {
                        c.left == once.left && c.right == once.right
                    };
                let theirs = choose|once: Children| #[trigger]
                    other_before.is_split_of(&once, data) && d.left_pole == once.left_pole
                        && d.right_pole == once.right_pole && d.polar_distance
                        == once.polar_distance && if recursive {
                        d.left.is_partition_of(&once.left, data, criteria, recursive)
                            && d.right.is_partition_of(&once.right, data, criteria, recursive)
                    } else {
                        d.left == once.left && d.right == once.right
                    };
                before.lemma_split_is_determined(other_before, &mine, &theirs, data);
                if recursive {
                    c.left.lemma_partition_is_determined(
                        &d.left,
                        &mine.left,
                        &theirs.left,
                        data,
                        criteria,
                        recursive,
                    );
                    c.right.lemma_partition_is_determined(
                        &d.right,
                        &mine.right,
                        &theirs.right,
                        data,
                        criteria,
                        recursive,
                    );
                }
            },
        }
    }

    /// Two trees that were grown from one built leaf with a seed, by the same
    /// criteria, are the same tree, whether they were grown in turn or side
    /// by side.
    pub proof fn lemma_seed_repeats_tree<T: Sync, M: Metric<T> + Sync, C: PartitionCriterion>(
        &self,
        other: &Cluster,
        before: &Cluster,
        data: &VecDataset<T, M>,
        criteria: &C,
        recursive: bool,
    )
        requires
            before.wf(data),
            before.is_built_leaf(),
            before.seed is Some || before.cardinality < SUB_SAMPLE_LIMIT,
            judges_alike(criteria),
            self.is_grown_from(before, data, criteria, recursive),
            other.is_grown_from(before, data, criteria, recursive),
        ensures
            self.is_same_tree(other),
    {
        self.lemma_partition_is_determined(other, before, before, data, criteria, recursive);
    }
}

} // verus!
