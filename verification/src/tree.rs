//! A dataset together with the tree of clusters that was grown over it.

use vstd::prelude::*;
use crate::cluster::{run, same_elements, Cluster};
use crate::criteria::PartitionCriterion;
use crate::dataset::{copy_indices, is_permutation, VecDataset};
use crate::error::ClamError;
use crate::metric::Metric;
use crate::reorder::is_laid_out;

verus! {

/// A dataset and the root of the tree of clusters over it.
///
/// A tree is made with [`Tree::new`], then built, then partitioned, and may
/// at last be reordered depth first.
pub struct Tree<T, M: Metric<T>> {
    /// The dataset.
    pub data: VecDataset<T, M>,
    /// The root cluster, which holds every instance of the dataset.
    pub root: Cluster,
}

impl Cluster {
    /// Why [`Cluster::depth_first_reorder`] refuses the cluster, if it does:
    /// as out of order where it was not built or is no root, else as a bad
    /// argument where it does not hold every instance of the dataset once.
    pub open spec fn reorder_error<T: Sync, M: Metric<T> + Sync>(
        &self,
        data: &VecDataset<T, M>,
    ) -> Option<ClamError> {
        if !self.built || self.bits().len() != 1 {
            Some(ClamError::InvalidLifecycle)
        } else if !(self.index is Offset) && !is_permutation(self.members(), data.len()) {
            Some(ClamError::InvalidArgument)
        } else {
            None
        }
    }

    /// Lays the dataset out in the order in which the leaves of the tree
    /// hold its instances, left to right, and renumbers the tree for the new
    /// layout: every cluster then holds a run of consecutive positions, the
    /// root the run that starts at zero, a left child the start of its
    /// parent's run and a right child what follows.
    ///
    /// A tree that was reordered before is left as it is, and so is the
    /// dataset. Refused as out of order for a cluster that was not built or
    /// is not the root; refused as a bad argument for a root that does not
    /// hold every instance of the dataset once.
    pub fn depth_first_reorder<T: Sync, M: Metric<T> + Sync>(
        self,
        data: &mut VecDataset<T, M>,
    ) -> (res: Result<Cluster, ClamError>)
        requires
            old(data).wf(),
            self.built ==> self.wf(old(data)),
        ensures
            final(data).wf(),
            final(data).len() == old(data).len(),
            match res {
                Ok(c) => {
                    &&& self.reorder_error(old(data)) is None
                    &&& c.wf(final(data))
                    &&& if self.index is Offset {
                        c == self && *final(data) == *old(data)
                    } else {
                        &&& c.members() == run(0, self.cardinality)
                        &&& is_laid_out(old(data), final(data), self.members())
                        &&& c.is_reordering_of(&self, final(data), 0)
                        &&& c.holds_instances_of(&self, final(data), old(data))
                    }
                },
                Err(e) => self.reorder_error(old(data)) == Some(e) && *final(data) == *old(data),
            },
    {
        if !self.built || self.history.len() != 1 {
            return Err(ClamError::InvalidLifecycle);
        }
        proof {
            self.lemma_wf_shape(data);
        }
        let order = match self.leaf_indices() {
            None => {
                return Ok(self);
            },
            Some(order) => order,
        };
        let ghost before = *data;
        match data.set_permutation(order.as_slice()) {
            Err(e) => Err(e),
            Ok(()) => {
                proof {
                    assert(order@.subrange(0, self.cardinality as int) =~= order@);
                }
                let res = self.dfr(data, 0, Ghost(&before), Ghost(order@));
                Ok(res)
            },
        }
    }
}

impl<T: Sync, M: Metric<T> + Sync> Tree<T, M> {
    /// The tree is sound: the dataset is, the root is named as a root and
    /// holds every instance of the dataset once, and once it is built the
    /// whole tree under it is sound.
    pub open spec fn wf(&self) -> bool {
        &&& self.data.wf()
        &&& self.data.len() >= 1
        &&& self.root.bits() == seq![true]
        &&& self.root.history.wf()
        &&& is_permutation(self.root.members(), self.data.len())
        &&& self.root.cardinality == self.data.len()
        &&& if self.root.built {
            self.root.wf(&self.data)
        } else {
            self.root.is_fresh()
        }
    }

    /// A tree over the dataset: a root cluster that holds every instance and
    /// is neither built nor partitioned. Refused for a dataset without
    /// instances.
    pub fn new(dataset: VecDataset<T, M>) -> (res: Result<Self, ClamError>)
        requires
            dataset.wf(),
        ensures
            match res {
                Ok(tree) => {
                    &&& dataset.len() > 0
                    &&& tree.wf()
                    &&& tree.data == dataset
                    &&& !tree.root.built
                    &&& tree.root.seed is None
                    &&& tree.root.members() == run(0, dataset.len() as usize)
                },
                Err(e) => e == ClamError::InvalidArgument && dataset.len() == 0,
            },
    {
        if dataset.cardinality() == 0 {
            return Err(ClamError::InvalidArgument);
        }
        let indices = copy_indices(dataset.indices().as_slice());
        proof {
            assert(indices@ =~= run(0, dataset.len() as usize));
        }
        let root = Cluster::new_root(indices);
        Ok(Tree { data: dataset, root })
    }

    /// The root cluster.
    pub fn root(&self) -> (res: &Cluster)
        ensures
            *res == self.root,
    {
        &self.root
    }

    /// The dataset.
    pub fn dataset(&self) -> (res: &VecDataset<T, M>)
        ensures
            *res == self.data,
    {
        &self.data
    }

    /// The dataset.
    pub fn data(&self) -> (res: &VecDataset<T, M>)
        ensures
            *res == self.data,
    {
        &self.data
    }

    /// The number of instances.
    pub fn cardinality(&self) -> (n: usize)
        ensures
            n == self.root.cardinality,
    {
        self.root.cardinality()
    }

    /// The radius of the root cluster.
    pub fn radius(&self) -> (r: u64)
        ensures
            r == self.root.radius,
    {
        self.root.radius()
    }

    /// The greatest depth of any cluster of the tree.
    pub fn depth(&self) -> (d: usize)
        requires
            self.wf(),
        ensures
            d == self.root.deepest(),
    {
        proof {
            if self.root.built {
                self.root.lemma_wf_shape(&self.data);
            }
        }
        self.root.max_leaf_depth()
    }

    /// The same tree, with a seed for the sampling of centers.
    pub fn with_seed(self, seed: u64) -> (res: Self)
        ensures
            res.data == self.data,
            res.root == (Cluster { seed: Some(seed), ..self.root }),
    {
        let Tree { data, root } = self;
        Tree { data, root: root.with_seed(seed) }
    }

    /// Builds the root: computes its center, its radius and its local
    /// fractal dimension. Refused as out of order for a tree whose root was
    /// built before.
    pub fn build(self) -> (res: Result<Self, ClamError>)
        requires
            self.wf(),
        ensures
            match res {
                Ok(tree) => {
                    &&& !self.root.built
                    &&& tree.wf()
                    &&& tree.data == self.data
                    &&& tree.root.is_built_from(&self.data, self.root.members())
                    &&& tree.root.index == self.root.index
                    &&& tree.root.history == self.root.history
                    &&& tree.root.children is None
                    &&& tree.root.seed == self.root.seed
                },
                Err(e) => e == ClamError::InvalidLifecycle && self.root.built,
            },
    {
        let Tree { data, root } = self;
        if root.built {
            return Err(ClamError::InvalidLifecycle);
        }
        match root.build(&data) {
            Ok(built) => Ok(Tree { data, root: built }),
            Err(e) => Err(e),
        }
    }

    /// Partitions the root by the given criteria, and with `recursive` every
    /// cluster that comes of it. Refused as out of order for a tree whose
    /// root was not built, or was partitioned or reordered before.
    pub fn partition<C: PartitionCriterion + Sync>(self, criteria: &C, recursive: bool) -> (res: Result<
        Self,
        ClamError,
    >)
        requires
            self.wf(),
        ensures
            match res {
                Ok(tree) => {
                    &&& self.root.partition_error() is None
                    &&& tree.wf()
                    &&& tree.data == self.data
                    &&& tree.root.is_grown_from(&self.root, &self.data, criteria, recursive)
                },
                Err(e) => self.root.partition_error() == Some(e),
            },
    {
        let Tree { data, root } = self;
        let ghost before = root;
        match root.partition(&data, criteria, recursive) {
            Ok(grown) => {
                proof {
                    Self::lemma_still_all(&before, &grown, &data);
                }
                Ok(Tree { data, root: grown })
            },
            Err(e) => Err(e),
        }
    }

    /// As [`Tree::partition`], with the two children of each split
    /// partitioned side by side. The tree is the same.
    pub fn par_partition<C: PartitionCriterion + Sync>(self, criteria: &C, recursive: bool) -> (res: Result<
        Self,
        ClamError,
    >)
        requires
            self.wf(),
        ensures
            match res {
                Ok(tree) => {
                    &&& self.root.partition_error() is None
                    &&& tree.wf()
                    &&& tree.data == self.data
                    &&& tree.root.is_grown_from(&self.root, &self.data, criteria, recursive)
                },
                Err(e) => self.root.partition_error() == Some(e),
            },
    {
        let Tree { data, root } = self;
        let ghost before = root;
        match root.par_partition(&data, criteria, recursive) {
            Ok(grown) => {
                proof {
                    Self::lemma_still_all(&before, &grown, &data);
                }
                Ok(Tree { data, root: grown })
            },
            Err(e) => Err(e),
        }
    }

    /// A root that held every instance once still does after it was
    /// partitioned.
    pub proof fn lemma_still_all(before: &Cluster, grown: &Cluster, data: &VecDataset<T, M>)
        requires
            is_permutation(before.members(), data.len()),
            grown.wf(data),
            grown.cardinality == before.cardinality,
            before.cardinality == data.len(),
            same_elements(before.members(), grown.members()),
        ensures
            is_permutation(grown.members(), data.len()),
    {
    }

    /// The positions of all instances, in the order in which the leaves of
    /// the tree hold them, left to right. After a reordering that is
    /// `0, 1, .., n - 1`.
    pub fn indices(&self) -> (res: Vec<usize>)
        requires
            self.wf(),
        ensures
            res@ == self.root.members(),
            self.root.index is Offset ==> res@ == run(0, self.root.cardinality),
    {
        proof {
            if self.root.built {
                self.root.lemma_wf_shape(&self.data);
            }
        }
        self.root.indices()
    }

    /// Reorders the dataset depth first, and renumbers the tree for the new
    /// layout; see [`Cluster::depth_first_reorder`]. A tree that was
    /// reordered before is left as it is. Refused as out of order for a tree
    /// whose root was not built.
    pub fn depth_first_reorder(self) -> (res: Result<Self, ClamError>)
        requires
            self.wf(),
        ensures
            match res {
                Ok(tree) => {
                    &&& self.root.built
                    &&& tree.wf()
                    &&& tree.root.members() == run(0, self.root.cardinality)
                    &&& if self.root.index is Offset {
                        tree == self
                    } else {
                        &&& is_laid_out(&self.data, &tree.data, self.root.members())
                        &&& tree.root.is_reordering_of(&self.root, &tree.data, 0)
                        &&& tree.root.holds_instances_of(&self.root, &tree.data, &self.data)
                    }
                },
                Err(e) => e == ClamError::InvalidLifecycle && !self.root.built,
            },
    {
        let Tree { data, root } = self;
        let mut data = data;
        match root.depth_first_reorder(&mut data) {
            Ok(root) => {
                proof {
                    assert(root.members() =~= run(0, root.cardinality));
                    assert(is_permutation(run(0, root.cardinality), data.len()));
                }
                Ok(Tree { data, root })
            },
            Err(e) => Err(e),
        }
    }
}

} // verus!
