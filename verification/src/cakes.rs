//! The search facade: a tree that is grown at construction, and the
//! searches over it.

use vstd::prelude::*;
use crate::cluster::{run, Cluster};
use crate::clustered::tree_search;
use crate::criteria::PartitionCriterion;
use crate::dataset::VecDataset;
use crate::error::ClamError;
use crate::knn;
use crate::metric::Metric;
use crate::rnn;
use crate::tree::Tree;

verus! {

/// Entropy-scaling search over a dataset: range search and nearest-neighbour
/// search that descend a tree of clusters.
pub struct Cakes<T, M: Metric<T>> {
    /// The tree used for the search.
    pub tree: Tree<T, M>,
}

/// Another name for [`Cakes`].
pub type CAKES<T, M> = Cakes<T, M>;

impl<T: Sync, M: Metric<T> + Sync> Cakes<T, M> {
    /// The facade is sound: its tree is, and is built.
    pub open spec fn wf(&self) -> bool {
        self.tree.wf() && self.tree.root.built
    }

    /// What a range search over the facade answers: what a descent of the
    /// tree reports, and for the linear search every instance within the
    /// radius, in the order in which the tree holds them.
    pub open spec fn is_rnn_answer(
        &self,
        query: &T,
        radius: u64,
        algorithm: rnn::Algorithm,
        hits: Seq<(usize, u64)>,
    ) -> bool {
        &&& self.tree.is_ball(query, radius, hits)
        &&& algorithm == rnn::Algorithm::Linear ==> hits == self.tree.data.linear_hits(
            query,
            radius,
            self.tree.root.members(),
        ) && self.tree.data.is_complete_for(self.tree.root.members(), query, radius, hits)
    }

    /// What a nearest-neighbour search over the facade answers for `k >= 1`.
    pub open spec fn is_knn_answer(
        &self,
        query: &T,
        k: usize,
        algorithm: knn::Algorithm,
        hits: Seq<(usize, u64)>,
    ) -> bool {
        algorithm.is_answer(&self.tree, query, k as nat, hits)
    }

    /// Grows a tree over the dataset: the root is built, with the seed if
    /// one is given, and partitioned all the way down by the criteria.
    /// Refused for a dataset without instances.
    pub fn new<C: PartitionCriterion + Sync>(data: VecDataset<T, M>, seed: Option<u64>, criteria: C) -> (res:
        Result<Self, ClamError>)
        requires
            data.wf(),
        ensures
            match res {
                Ok(cakes) => {
                    &&& data.len() > 0
                    &&& cakes.wf()
                    &&& cakes.tree.data == data
                    &&& cakes.tree.root.seed == seed
                    &&& exists|built: Cluster| #[trigger]
                        built.is_built_from(&data, run(0, data.len() as usize)) && built.members()
                            == run(0, data.len() as usize) && built.is_built_leaf() && built.seed
                            == seed && built.bits() == seq![true] && cakes.tree.root.is_grown_from(
                            &built,
                            &data,
                            &criteria,
                            true,
                        )
                },
                Err(e) => e == ClamError::InvalidArgument && data.len() == 0,
            },
    {
        let tree = match Tree::new(data) {
            Ok(tree) => tree,
            Err(e) => {
                return Err(e);
            },
        };
        let tree = match seed {
            Some(s) => tree.with_seed(s),
            None => tree,
        };
        let tree = match tree.build() {
            Ok(tree) => tree,
            Err(e) => {
                return Err(e);
            },
        };
        let ghost built = tree.root;
        let tree = match tree.partition(&criteria, true) {
            Ok(tree) => tree,
            Err(e) => {
                return Err(e);
            },
        };
        Ok(Cakes { tree })
    }

    /// The dataset.
    pub fn data(&self) -> (res: &VecDataset<T, M>)
        ensures
            *res == self.tree.data,
    {
        self.tree.data()
    }

    /// The tree.
    pub fn tree(&self) -> (res: &Tree<T, M>)
        ensures
            *res == self.tree,
    {
        &self.tree
    }

    /// The root cluster of the tree.
    pub fn root(&self) -> (res: &Cluster)
        ensures
            *res == self.tree.root,
    {
        self.tree.root()
    }

    /// The greatest depth of any cluster of the tree.
    pub fn depth(&self) -> (d: usize)
        requires
            self.wf(),
        ensures
            d == self.tree.root.deepest(),
    {
        self.tree.depth()
    }

    /// The radius of the root cluster.
    pub fn radius(&self) -> (r: u64)
        ensures
            r == self.tree.root.radius,
    {
        self.tree.radius()
    }

    /// Twice the radius of the root cluster, and the greatest distance there
    /// is where that is more.
    pub fn diameter(&self) -> (d: u64)
        ensures
            d == if 2 * self.tree.root.radius > u64::MAX {
                u64::MAX
            } else {
                (2 * self.tree.root.radius) as u64
            },
    {
        let r = self.tree.radius();
        if r > u64::MAX / 2 {
            u64::MAX
        } else {
            2 * r
        }
    }

    /// Finds the instances within `radius` of the query, each with its
    /// distance.
    pub fn rnn_search(&self, query: &T, radius: u64, algorithm: rnn::Algorithm) -> (hits: Vec<
        (usize, u64),
    >)
        requires
            self.wf(),
        ensures
            self.is_rnn_answer(query, radius, algorithm, hits@),
    {
        algorithm.search(query, radius, &self.tree)
    }

    /// Finds the `k` instances nearest to the query, each with its distance,
    /// nearest first. Refused for `k == 0`.
    pub fn knn_search(&self, query: &T, k: usize, algorithm: knn::Algorithm) -> (res: Result<
        Vec<(usize, u64)>,
        ClamError,
    >)
        requires
            self.wf(),
        ensures
            match res {
                Ok(hits) => k >= 1 && self.is_knn_answer(query, k, algorithm, hits@),
                Err(e) => e == ClamError::InvalidArgument && k == 0,
            },
    {
        algorithm.search(&self.tree, query, k)
    }

    /// Finds the instances within `radius` of the query by a search of the
    /// whole dataset, or of the given instances where some are given.
    pub fn linear_search(&self, query: &T, radius: u64, indices: Option<Vec<usize>>) -> (hits: Vec<
        (usize, u64),
    >)
        requires
            self.wf(),
            indices is Some ==> crate::dataset::all_below(indices->Some_0@, self.tree.data.len()),
        ensures
            hits@ == self.tree.data.linear_hits(
                query,
                radius,
                match indices {
                    Some(given) => given@,
                    None => self.tree.root.members(),
                },
            ),
    {
        let indices = match indices {
            Some(given) => given,
            None => self.tree.indices(),
        };
        self.tree.data.linear_search(query, radius, indices.as_slice())
    }

    /// Finds the `k` instances nearest to the query by range searches of
    /// growing radius. Refused for `k == 0`.
    pub fn knn_by_rnn(&self, query: &T, k: usize) -> (res: Result<Vec<(usize, u64)>, ClamError>)
        requires
            self.wf(),
        ensures
            match res {
                Ok(hits) => k >= 1 && self.is_knn_answer(
                    query,
                    k,
                    knn::Algorithm::RepeatedRnn,
                    hits@,
                ),
                Err(e) => e == ClamError::InvalidArgument && k == 0,
            },
    {
        self.knn_search(query, k, knn::Algorithm::RepeatedRnn)
    }

    /// The metric of the dataset.
    pub fn metric(&self) -> (res: &M)
        ensures
            *res == self.tree.data.metric,
    {
        &self.tree.data.metric
    }

    /// The first phase of the clustered range search: the clusters whose
    /// balls lie inside the query ball, and the leaves that straddle its
    /// border; see [`tree_search`].
    pub fn rnn_tree_search(&self, query: &T, radius: u64) -> (res: (
        Vec<(&Cluster, u64)>,
        Vec<(&Cluster, u64)>,
    ))
        requires
            self.wf(),
        ensures
            self.tree.data.is_sieved(&self.tree.root, query, radius, res.0@, res.1@),
    {
        tree_search(&self.tree.data, &self.tree.root, query, radius)
    }

    /// The instances of the given clusters that are within `radius` of the
    /// query: a linear search over the instances of all of them.
    pub fn rnn_leaf_search(&self, query: &T, radius: u64, candidates: &[&Cluster]) -> (hits: Vec<
        (usize, u64),
    >)
        requires
            self.wf(),
            forall|k: int| 0 <= k < candidates@.len() ==> (#[trigger] candidates@[k]).wf(&self.tree.data),
        ensures
            hits@ == self.tree.data.linear_hits(
                query,
                radius,
                Self::all_members(candidates@, candidates@.len() as int),
            ),
    {
        let mut pool: Vec<usize> = Vec::new();
        let mut k: usize = 0;
        while k < candidates.len()
            invariant
                self.wf(),
                forall|j: int|
                    0 <= j < candidates@.len() ==> (#[trigger] candidates@[j]).wf(&self.tree.data),
                k <= candidates@.len(),
                pool@ == Self::all_members(candidates@, k as int),
                crate::dataset::all_below(pool@, self.tree.data.len()),
            decreases candidates@.len() - k,
        {
            let c = candidates[k];
            proof {
                assert(candidates@[k as int].wf(&self.tree.data));
                c.lemma_wf_shape(&self.tree.data);
            }
            let mut members = c.indices();
            pool.append(&mut members);
            k += 1;
        }
        self.tree.data.linear_search(query, radius, pool.as_slice())
    }

    /// The instances of the first `upto` of the clusters, one cluster after
    /// the other.
    pub open spec fn all_members(clusters: Seq<&Cluster>, upto: int) -> Seq<usize>
        decreases upto,
    {
        if upto <= 0 {
            Seq::empty()
        } else {
            Self::all_members(clusters, upto - 1) + clusters[upto - 1].members()
        }
    }

    /// Answers one range query for each of `queries` by a search of the
    /// whole dataset, in their order; the queries are answered side by
    /// side.
    pub fn batch_linear_search(&self, queries: &[T], radius: u64) -> (res: Vec<Vec<(usize, u64)>>)
        requires
            self.wf(),
        ensures
            res@.len() == queries@.len(),
            forall|i: int|
                0 <= i < queries@.len() ==> (#[trigger] res@[i])@ == self.tree.data.linear_hits(
                    &queries@[i],
                    radius,
                    self.tree.root.members(),
                ),
    {
        self.batch_rnn_search(queries, radius, rnn::Algorithm::Linear)
    }

    /// Answers one nearest-neighbour query for each of `queries` by range
    /// searches of growing radius, in their order; the queries are answered
    /// side by side.
    pub fn batch_knn_by_rnn(&self, queries: &[T], k: usize) -> (res: Vec<
        Result<Vec<(usize, u64)>, ClamError>,
    >)
        requires
            self.wf(),
        ensures
            res@.len() == queries@.len(),
            forall|i: int|
                0 <= i < queries@.len() ==> match #[trigger] res@[i] {
                    Ok(hits) => k >= 1 && self.is_knn_answer(
                        &queries@[i],
                        k,
                        knn::Algorithm::RepeatedRnn,
                        hits@,
                    ),
                    Err(e) => e == ClamError::InvalidArgument && k == 0,
                },
    {
        self.batch_knn_search(queries, k, knn::Algorithm::RepeatedRnn)
    }

    /// Answers one range query for each of `queries`, in their order; the
    /// queries are answered side by side.
    pub fn batch_rnn_search(&self, queries: &[T], radius: u64, algorithm: rnn::Algorithm) -> (res:
        Vec<Vec<(usize, u64)>>)
        requires
            self.wf(),
        ensures
            res@.len() == queries@.len(),
            forall|i: int|
                0 <= i < queries@.len() ==> self.is_rnn_answer(
                    &queries@[i],
                    radius,
                    algorithm,
                    (#[trigger] res@[i])@,
                ),
    {
        self.par_rnn_search(queries, radius, algorithm)
    }

    /// Hands the queries to rayon's parallel iterator (`par_iter`, `map`,
    /// `collect`), which keeps their order; each answer is one call of
    /// [`Cakes::rnn_search`].
    #[verifier::external_body]
    fn par_rnn_search(&self, queries: &[T], radius: u64, algorithm: rnn::Algorithm) -> (res: Vec<
        Vec<(usize, u64)>,
    >)
        requires
            self.wf(),
        ensures
            res@.len() == queries@.len(),
            forall|i: int|
                0 <= i < queries@.len() ==> self.is_rnn_answer(
                    &queries@[i],
                    radius,
                    algorithm,
                    (#[trigger] res@[i])@,
                ),
    {
        rayon::iter::ParallelIterator::collect(
            rayon::iter::ParallelIterator::map(
                rayon::iter::IntoParallelRefIterator::par_iter(queries),
                |query: &T| self.rnn_search(query, radius, algorithm),
            ),
        )
    }

    /// Answers one nearest-neighbour query for each of `queries`, in their
    /// order; the queries are answered side by side.
    pub fn batch_knn_search(&self, queries: &[T], k: usize, algorithm: knn::Algorithm) -> (res: Vec<
        Result<Vec<(usize, u64)>, ClamError>,
    >)
        requires
            self.wf(),
        ensures
            res@.len() == queries@.len(),
            forall|i: int|
                0 <= i < queries@.len() ==> match #[trigger] res@[i] {
                    Ok(hits) => k >= 1 && self.is_knn_answer(&queries@[i], k, algorithm, hits@),
                    Err(e) => e == ClamError::InvalidArgument && k == 0,
                },
    {
        self.par_knn_search(queries, k, algorithm)
    }

    /// Hands the queries to rayon's parallel iterator (`par_iter`, `map`,
    /// `collect`), which keeps their order; each answer is one call of
    /// [`Cakes::knn_search`].
    #[verifier::external_body]
    fn par_knn_search(&self, queries: &[T], k: usize, algorithm: knn::Algorithm) -> (res: Vec<
        Result<Vec<(usize, u64)>, ClamError>,
    >)
        requires
            self.wf(),
        ensures
            res@.len() == queries@.len(),
            forall|i: int|
                0 <= i < queries@.len() ==> match #[trigger] res@[i] {
                    Ok(hits) => k >= 1 && self.is_knn_answer(&queries@[i], k, algorithm, hits@),
                    Err(e) => e == ClamError::InvalidArgument && k == 0,
                },
    {
        rayon::iter::ParallelIterator::collect(
            rayon::iter::ParallelIterator::map(
                rayon::iter::IntoParallelRefIterator::par_iter(queries),
                |query: &T| self.knn_search(query, k, algorithm),
            ),
        )
    }
}

} // verus!
