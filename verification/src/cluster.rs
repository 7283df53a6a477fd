//! The nodes of the tree: what a cluster is, and how one is built from the
//! instances it holds.

use vstd::prelude::*;
use crate::dataset::{all_below, copy_indices, seeded_shuffle, VecDataset};
use crate::error::ClamError;
use crate::helpers::{compute_lfd, farthest, is_first_max, is_isqrt, isqrt, lfd_of, Lfd};
use crate::history::History;
use crate::metric::Metric;

verus! {

/// A cluster with fewer instances than this takes all of them as the sample
/// from which its center is chosen; a larger one samples the square root of
/// its cardinality.
pub const SUB_SAMPLE_LIMIT: usize = 100;

/// How a cluster knows its instances.
pub enum Index {
    /// The positions of the instances: a leaf, before the tree is reordered.
    Indices(Vec<usize>),
    /// The first position of a contiguous run: any cluster, after the tree is
    /// reordered.
    Offset(usize),
    /// Nothing of its own: a parent, before the tree is reordered. Its
    /// instances are those of its children.
    Empty,
}

/// The two children of a cluster, with the poles that they were gathered
/// round.
pub struct Children {
    /// The pole of the left child.
    pub left_pole: usize,
    /// The left child: the one with no fewer instances than the other.
    pub left: Cluster,
    /// The pole of the right child.
    pub right_pole: usize,
    /// The right child.
    pub right: Cluster,
    /// The distance between the two poles, measured from the first of them:
    /// the instance that is farthest from the center of the parent.
    pub polar_distance: u64,
}

/// A set of instances of a dataset, with a center and a radius, and, once it
/// is partitioned, two children that share the instances between them.
pub struct Cluster {
    /// The turns from the root to this cluster.
    pub history: History,
    /// The number of instances.
    pub cardinality: usize,
    /// The position of the instance at the center.
    pub arg_center: usize,
    /// The position of the instance that is farthest from the center.
    pub arg_radius: usize,
    /// The distance from the center to that instance.
    pub radius: u64,
    /// The local fractal dimension at the scale of the radius.
    pub lfd: Lfd,
    /// The seed for sampling, if any; children inherit it.
    pub seed: Option<u64>,
    /// Whether center, radius and fractal dimension have been computed.
    pub built: bool,
    /// The instances.
    pub index: Index,
    /// The children, if the cluster was partitioned.
    pub children: Option<Box<Children>>,
}

/// The positions `offset, offset + 1, .., offset + n - 1`.
pub open spec fn run(offset: usize, n: usize) -> Seq<usize> {
    Seq::new(n as nat, |j: int| (offset + j) as usize)
}

/// Two sequences hold the same elements, in whatever order.
pub open spec fn same_elements(a: Seq<usize>, b: Seq<usize>) -> bool {
    forall|x: usize| a.contains(x) <==> b.contains(x)
}

impl Cluster {
    /// The bits of the name.
    pub open spec fn bits(&self) -> Seq<bool> {
        self.history.bits()
    }

    /// The positions of the instances. For a parent they are those of the
    /// left child followed by those of the right child.
    pub open spec fn members(&self) -> Seq<usize>
        decreases self,
    {
        match self.index {
            Index::Indices(v) => v@,
            Index::Offset(o) => run(o, self.cardinality),
            Index::Empty => match self.children {
                Some(c) => c.left.members() + c.right.members(),
                None => Seq::empty(),
            },
        }
    }

    /// The number of clusters in the subtree, this one included.
    pub open spec fn size(&self) -> nat
        decreases self,
    {
        match self.children {
            Some(c) => 1 + c.left.size() + c.right.size(),
            None => 1,
        }
    }

    /// The cluster is new: it holds a list of positions, and nothing was
    /// computed from them yet.
    pub open spec fn is_fresh(&self) -> bool {
        &&& !self.built
        &&& self.children is None
        &&& self.index is Indices
        &&& self.cardinality == self.members().len()
    }

    /// The sample that a seed fixes for a cluster with the given instances:
    /// what a greedy pass over the seeded rearrangement of them keeps, up to
    /// the square root of their number.
    pub open spec fn is_seeded_sample<T: Sync, M: Metric<T> + Sync>(
        data: &VecDataset<T, M>,
        indices: Seq<usize>,
        seed: u64,
        sample: Seq<usize>,
    ) -> bool {
        exists|n: nat| #[trigger]
            is_isqrt(indices.len(), n) && sample == data.unique_sample(
                seeded_shuffle(indices, seed),
                n,
            )
    }

    /// A sample that may be drawn without a seed for a cluster with the
    /// given instances: what a greedy pass over some rearrangement of them
    /// keeps, up to the square root of their number.
    pub open spec fn is_drawn_sample<T: Sync, M: Metric<T> + Sync>(
        data: &VecDataset<T, M>,
        indices: Seq<usize>,
        sample: Seq<usize>,
    ) -> bool {
        exists|candidates: Seq<usize>, n: nat|
            candidates.to_multiset() == indices.to_multiset() && is_isqrt(indices.len(), n)
                && sample == #[trigger] data.unique_sample(candidates, n)
    }

    /// The sample from which [`Cluster::build`] chooses the center of a
    /// cluster with the given instances and seed: all of the instances while
    /// there are few; else the sample that the seed fixes, or, without a
    /// seed, some sample that may be drawn.
    pub open spec fn is_center_sample<T: Sync, M: Metric<T> + Sync>(
        data: &VecDataset<T, M>,
        indices: Seq<usize>,
        seed: Option<u64>,
        sample: Seq<usize>,
    ) -> bool {
        if indices.len() < SUB_SAMPLE_LIMIT {
            sample == indices
        } else {
            match seed {
                Some(s) => Self::is_seeded_sample(data, indices, s, sample),
                None => Self::is_drawn_sample(data, indices, sample),
            }
        }
    }

    /// Center, radius and fractal dimension are what building computes for a
    /// cluster with the given instances, and with the seed of this cluster.
    pub open spec fn is_built_from<T: Sync, M: Metric<T> + Sync>(
        &self,
        data: &VecDataset<T, M>,
        indices: Seq<usize>,
    ) -> bool {
        let from_center = data.distances_from(self.arg_center as int, indices);
        &&& self.built
        &&& exists|sample: Seq<usize>| #[trigger]
            Self::is_center_sample(data, indices, self.seed, sample) && data.is_median(
                self.arg_center,
                sample,
            )
        &&& exists|k: int| #[trigger]
            is_first_max(from_center, k) && self.arg_radius == indices[k]
        &&& self.radius == data.dist(self.arg_center as int, self.arg_radius as int)
        &&& self.lfd == lfd_of(from_center, self.radius)
    }

    /// Building is determined: two clusters that were built from the same
    /// instances with the same seed, or from fewer instances than are
    /// sampled, have the same center, the same farthest instance, the same
    /// radius and the same fractal dimension.
    pub proof fn lemma_build_is_determined<T: Sync, M: Metric<T> + Sync>(
        &self,
        other: &Cluster,
        data: &VecDataset<T, M>,
        indices: Seq<usize>,
    )
        requires
            self.is_built_from(data, indices),
            other.is_built_from(data, indices),
            self.seed == other.seed,
            self.seed is Some || indices.len() < SUB_SAMPLE_LIMIT,
        ensures
            self.arg_center == other.arg_center,
            self.arg_radius == other.arg_radius,
            self.radius == other.radius,
            self.lfd == other.lfd,
    {
        let one = choose|sample: Seq<usize>| #[trigger]
            Self::is_center_sample(data, indices, self.seed, sample) && data.is_median(
                self.arg_center,
                sample,
            );
        let two = choose|sample: Seq<usize>| #[trigger]
            Self::is_center_sample(data, indices, other.seed, sample) && data.is_median(
                other.arg_center,
                sample,
            );
        if indices.len() >= SUB_SAMPLE_LIMIT {
            let s = self.seed->Some_0;
            let n = choose|n: nat| #[trigger]
                is_isqrt(indices.len(), n) && one == data.unique_sample(
                    seeded_shuffle(indices, s),
                    n,
                );
            let m = choose|m: nat| #[trigger]
                is_isqrt(indices.len(), m) && two == data.unique_sample(
                    seeded_shuffle(indices, s),
                    m,
                );
            assert(n == m) by (nonlinear_arith)
                requires
                    n * n <= indices.len() < (n + 1) * (n + 1),
                    m * m <= indices.len() < (m + 1) * (m + 1),
            ;
        }
        assert(one == two);
        let i = choose|i: int| 0 <= i < one.len() && one[i] == self.arg_center;
        let j = choose|j: int| 0 <= j < one.len() && one[j] == other.arg_center;
        assert(data.at_least_as_central(self.arg_center, one[j], one));
        assert(data.at_least_as_central(other.arg_center, one[i], one));
        assert(self.arg_center == other.arg_center);
        let from_center = data.distances_from(self.arg_center as int, indices);
        let a = choose|k: int| #[trigger]
            is_first_max(from_center, k) && self.arg_radius == indices[k];
        let b = choose|k: int| #[trigger]
            is_first_max(from_center, k) && other.arg_radius == indices[k];
        if a < b {
            assert(from_center[a] < from_center[b]);
            assert(from_center[b] <= from_center[a]);
        } else if b < a {
            assert(from_center[b] < from_center[a]);
            assert(from_center[a] <= from_center[b]);
        }
    }

    /// What holds of every built cluster by itself: it has instances, all of
    /// them in the dataset and none twice, its center and its farthest
    /// instance are among them, and none is farther from the center than the
    /// radius. A run of positions ends within the dataset.
    pub open spec fn node_ok<T: Sync, M: Metric<T> + Sync>(&self, data: &VecDataset<T, M>) -> bool {
        let m = self.members();
        &&& self.built
        &&& self.history.wf()
        &&& self.cardinality == m.len()
        &&& self.cardinality >= 1
        &&& self.index is Offset ==> self.index->Offset_0 + self.cardinality <= data.len()
        &&& all_below(m, data.len())
        &&& m.no_duplicates()
        &&& m.contains(self.arg_center)
        &&& m.contains(self.arg_radius)
        &&& self.radius == data.dist(self.arg_center as int, self.arg_radius as int)
        &&& forall|k: int|
            0 <= k < m.len() ==> data.dist(self.arg_center as int, #[trigger] m[k] as int)
                <= self.radius
        &&& self.lfd.half_count >= 1
    }

    /// `x` belongs with the first pole `a`: it is that pole, or it is no
    /// farther from `a` than from the second pole `b`.
    pub open spec fn sides_with_first<T: Sync, M: Metric<T> + Sync>(
        data: &VecDataset<T, M>,
        a: usize,
        b: usize,
        x: usize,
    ) -> bool {
        x == a || data.dist(a as int, x as int) <= data.dist(b as int, x as int)
    }

    /// `x` belongs with the second pole `b`: it is that pole, or it is
    /// farther from the first pole `a` than from `b`.
    pub open spec fn sides_with_second<T: Sync, M: Metric<T> + Sync>(
        data: &VecDataset<T, M>,
        a: usize,
        b: usize,
        x: usize,
    ) -> bool {
        x == b || data.dist(a as int, x as int) > data.dist(b as int, x as int)
    }

    /// Every one of `xs` belongs with the first pole.
    pub open spec fn all_side_with_first<T: Sync, M: Metric<T> + Sync>(
        data: &VecDataset<T, M>,
        a: usize,
        b: usize,
        xs: Seq<usize>,
    ) -> bool {
        forall|k: int| 0 <= k < xs.len() ==> Self::sides_with_first(data, a, b, #[trigger] xs[k])
    }

    /// Every one of `xs` belongs with the second pole.
    pub open spec fn all_side_with_second<T: Sync, M: Metric<T> + Sync>(
        data: &VecDataset<T, M>,
        a: usize,
        b: usize,
        xs: Seq<usize>,
    ) -> bool {
        forall|k: int| 0 <= k < xs.len() ==> Self::sides_with_second(data, a, b, #[trigger] xs[k])
    }

    /// What holds between a cluster and its children `c`.
    ///
    /// The first pole `a` is the instance farthest from the center, the
    /// second pole `b` is an instance farthest from `a`. Every other instance
    /// went to the child of `a` if it is no farther from `a` than from `b`,
    /// else to the child of `b`. The left child is the one of `a` unless the
    /// child of `b` is strictly larger.
    pub open spec fn split_ok<T: Sync, M: Metric<T> + Sync>(
        &self,
        c: &Children,
        data: &VecDataset<T, M>,
    ) -> bool {
        let a = self.arg_radius;
        let b = if c.left_pole == a {
            c.right_pole
        } else {
            c.left_pole
        };
        let of_a = if c.left_pole == a {
            c.left.members()
        } else {
            c.right.members()
        };
        let of_b = if c.left_pole == a {
            c.right.members()
        } else {
            c.left.members()
        };
        &&& c.left.bits() == self.bits().push(false)
        &&& c.right.bits() == self.bits().push(true)
        &&& c.left.seed == self.seed
        &&& c.right.seed == self.seed
        &&& self.members() == c.left.members() + c.right.members()
        &&& c.left.cardinality >= c.right.cardinality
        &&& c.left_pole != c.right_pole
        &&& (c.left_pole == a || c.right_pole == a)
        &&& c.left_pole != a ==> c.left.cardinality > c.right.cardinality
        &&& c.left.members().contains(c.left_pole)
        &&& c.right.members().contains(c.right_pole)
        &&& c.polar_distance == data.dist(a as int, b as int)
        &&& forall|k: int|
            0 <= k < self.members().len() ==> data.dist(a as int, #[trigger] self.members()[k] as int)
                <= c.polar_distance
        &&& Self::all_side_with_first(data, a, b, of_a)
        &&& Self::all_side_with_second(data, a, b, of_b)
    }

    /// The subtree is sound: every cluster in it is, and every parent stands
    /// to its children as a split leaves them.
    pub open spec fn wf<T: Sync, M: Metric<T> + Sync>(&self, data: &VecDataset<T, M>) -> bool
        decreases self,
    {
        &&& self.node_ok(data)
        &&& match self.children {
            None => !(self.index is Empty),
            Some(c) => {
                &&& !(self.index is Indices)
                &&& self.split_ok(&*c, data)
                &&& (c.left.index is Offset <==> self.index is Offset)
                &&& (c.right.index is Offset <==> self.index is Offset)
                &&& c.left.wf(data)
                &&& c.right.wf(data)
            },
        }
    }

    /// A new cluster with the given instances and name. Nothing is computed
    /// until it is built.
    pub fn new(indices: Vec<usize>, history: History) -> (c: Cluster)
        ensures
            c.is_fresh(),
            c.members() == indices@,
            c.history == history,
            c.seed is None,
    {
        Cluster {
            cardinality: indices.len(),
            index: Index::Indices(indices),
            children: None,
            history,
            arg_center: 0,
            arg_radius: 0,
            radius: 0,
            lfd: Lfd { count: 2, half_count: 1 },
            seed: None,
            built: false,
        }
    }

    /// A new root cluster with the given instances.
    pub fn new_root(indices: Vec<usize>) -> (c: Cluster)
        ensures
            c.is_fresh(),
            c.members() == indices@,
            c.bits() == seq![true],
            c.history.wf(),
            c.seed is None,
    {
        Cluster::new(indices, History::root())
    }

    /// The same cluster, with a seed for sampling.
    pub fn with_seed(self, seed: u64) -> (c: Cluster)
        ensures
            c == (Cluster { seed: Some(seed), ..self }),
    {
        let mut c = self;
        c.seed = Some(seed);
        c
    }

    /// Whether every index of the list is a position of the dataset.
    fn in_range(indices: &Vec<usize>, n: usize) -> (ok: bool)
        ensures
            ok == all_below(indices@, n as nat),
    {
        let mut k: usize = 0;
        while k < indices.len()
            invariant
                k <= indices@.len(),
                all_below(indices@.take(k as int), n as nat),
            decreases indices@.len() - k,
        {
            if indices[k] >= n {
                return false;
            }
            proof {
                let before = indices@.take(k as int);
                let after = indices@.take(k as int + 1);
                assert forall|j: int| 0 <= j < after.len() implies #[trigger] after[j] < n by {
                    if j < k {
                        assert(before[j] == after[j]);
                    }
                }
            }
            k += 1;
        }
        proof {
            assert(indices@.take(k as int) =~= indices@);
        }
        true
    }

    /// Center, farthest instance, radius and fractal dimension of the
    /// instances `indices`.
    fn measure<T: Sync, M: Metric<T> + Sync>(
        data: &VecDataset<T, M>,
        indices: &Vec<usize>,
        seed: Option<u64>,
    ) -> (res: (usize, usize, u64, Lfd))
        requires
            data.wf(),
            indices@.len() >= 1,
            all_below(indices@, data.len()),
        ensures
            ({
                let (arg_center, arg_radius, radius, lfd) = res;
                let from_center = data.distances_from(arg_center as int, indices@);
                &&& exists|sample: Seq<usize>| #[trigger]
                    Self::is_center_sample(data, indices@, seed, sample) && data.is_median(
                        arg_center,
                        sample,
                    )
                &&& exists|k: int| #[trigger]
                    is_first_max(from_center, k) && arg_radius == indices@[k]
                &&& radius == data.dist(arg_center as int, arg_radius as int)
                &&& lfd == lfd_of(from_center, radius)
                &&& lfd.half_count >= 1
                &&& indices@.contains(arg_center)
                &&& indices@.contains(arg_radius)
                &&& forall|k: int|
                    0 <= k < indices@.len() ==> data.dist(
                        arg_center as int,
                        #[trigger] indices@[k] as int,
                    ) <= radius
            }),
    {
        let sample = if indices.len() < SUB_SAMPLE_LIMIT {
            copy_indices(indices.as_slice())
        } else {
            let n = isqrt(indices.len());
            assert(n >= 1) by (nonlinear_arith)
                requires
                    is_isqrt(indices@.len(), n as nat),
                    indices@.len() >= 100,
            ;
            data.choose_unique(n, indices.as_slice(), seed)
        };
        proof {
            if indices@.len() >= SUB_SAMPLE_LIMIT {
                if seed is Some {
                    assert(Self::is_seeded_sample(data, indices@, seed->Some_0, sample@));
                } else {
                    assert(Self::is_drawn_sample(data, indices@, sample@));
                }
            }
        }
        assert(Self::is_center_sample(data, indices@, seed, sample@));
        let arg_center = data.median(sample.as_slice());
        proof {
            let j = choose|j: int| 0 <= j < sample@.len() && sample@[j] == arg_center;
            assert(indices@.contains(sample@[j]));
        }
        let from_center = data.one_to_many(arg_center, indices.as_slice());
        let (k, radius) = farthest(from_center.as_slice());
        let arg_radius = indices[k];
        let lfd = compute_lfd(from_center.as_slice(), radius);
        proof {
            assert(is_first_max(data.distances_from(arg_center as int, indices@), k as int));
            assert forall|j: int| 0 <= j < indices@.len() implies data.dist(
                arg_center as int,
                #[trigger] indices@[j] as int,
            ) <= radius by {
                assert(from_center@[j] <= from_center@[k as int]);
            }
        }
        (arg_center, arg_radius, radius, lfd)
    }

    /// Why [`Cluster::build`] refuses the cluster, if it does: as out of
    /// order where the cluster was built before or no longer holds a list of
    /// positions, else as a bad argument where the list is empty or names a
    /// position that the dataset does not have.
    pub open spec fn build_error<T: Sync, M: Metric<T> + Sync>(
        &self,
        data: &VecDataset<T, M>,
    ) -> Option<ClamError> {
        if self.built || !(self.index is Indices) {
            Some(ClamError::InvalidLifecycle)
        } else if self.members().len() == 0 || !all_below(self.members(), data.len()) {
            Some(ClamError::InvalidArgument)
        } else {
            None
        }
    }

    /// Computes the center, the radius and the local fractal dimension.
    ///
    /// The center is the median of a sample of the instances, the radius the
    /// distance from the center to the instance farthest from it, the first
    /// such instance in the list where several are.
    ///
    /// Refused as out of order for a cluster that was built before, or that
    /// no longer holds a list of positions; refused as a bad argument where
    /// the list is empty or names a position that the dataset does not have.
    pub fn build<T: Sync, M: Metric<T> + Sync>(self, data: &VecDataset<T, M>) -> (res: Result<
        Cluster,
        ClamError,
    >)
        requires
            data.wf(),
            self.history.wf(),
            self.index is Indices ==> self.cardinality == self.members().len()
                && self.members().no_duplicates(),
        ensures
            match res {
                Ok(c) => {
                    &&& self.build_error(data) is None
                    &&& c.is_built_from(data, self.members())
                    &&& c.wf(data)
                    &&& c.children is None
                    &&& c.index == self.index
                    &&& c.history == self.history
                    &&& c.seed == self.seed
                    &&& c.cardinality == self.cardinality
                },
                Err(e) => self.build_error(data) == Some(e),
            },
    {
        if self.built {
            return Err(ClamError::InvalidLifecycle);
        }
        let measured = match &self.index {
            Index::Indices(indices) => {
                if indices.len() == 0 || !Self::in_range(indices, data.cardinality()) {
                    return Err(ClamError::InvalidArgument);
                }
                Self::measure(data, indices, self.seed)
            },
            _ => {
                return Err(ClamError::InvalidLifecycle);
            },
        };
        let mut c = self;
        c.arg_center = measured.0;
        c.arg_radius = measured.1;
        c.radius = measured.2;
        c.lfd = measured.3;
        c.built = true;
        c.children = None;
        Ok(c)
    }
}

} // verus!
